//! What a source file imports: the descriptors of its import and export
//! statements, and the choice of those that the graph follows.

use crate::path_text::{is_relative, is_relative_text};
use swc_common::comments::SingleThreadedComments;
use swc_common::{FileName, SourceMap, Spanned};
use swc_ecma_dep_graph::{analyze_dependencies, DependencyKind};
use swc_ecma_parser::{Parser, Syntax};
use vstd::prelude::*;
use vstd::utf8::encode_utf8;

verus! {

/// The form in which a source text names another module.
#[derive(Debug, Clone, Copy, PartialEq, Eq, Structural)]
pub enum ImportKind {
    /// `import a from "m"`, and the call `import("m")`.
    Import,
    /// `import type { A } from "m"`, and the type `import("m")`.
    ImportType,
    /// `import a = require("m")`.
    ImportEquals,
    /// `export { a } from "m"` and `export * from "m"`.
    Export,
    /// `export type { A } from "m"`.
    ExportType,
    /// `export import a = require("m")`.
    ExportEquals,
    /// The calls `require("m")` and `require.resolve("m")`.
    Require,
}

/// Where a statement stands in its source text: byte offsets, counted from 1.
#[derive(Debug, Clone, Copy, PartialEq, Eq, Structural)]
pub struct SourceSpan {
    pub lo: u32,
    pub hi: u32,
}

/// One statement of a source file that names another module.
#[derive(Debug, PartialEq, Eq)]
pub struct ImportDescriptor {
    /// The text written for the module, quotes removed.
    pub specifier: String,
    pub kind: ImportKind,
    /// Whether the module is named in a call rather than in a statement at
    /// the top of the file.
    pub is_dynamic: bool,
    /// The span of the whole statement.
    pub span: SourceSpan,
}

/// An [`ImportDescriptor`] as a value of the logic.
pub struct ImportModel {
    pub specifier: Seq<char>,
    pub kind: ImportKind,
    pub is_dynamic: bool,
    pub span: SourceSpan,
}

impl View for ImportDescriptor {
    type V = ImportModel;

    open spec fn view(&self) -> ImportModel {
        ImportModel {
            specifier: self.specifier@,
            kind: self.kind,
            is_dynamic: self.is_dynamic,
            span: self.span,
        }
    }
}

impl ImportDescriptor {
    /// The descriptor of a statement of the given kind that spans the bytes
    /// from `lo` to `hi`.
    pub fn new(specifier: String, kind: ImportKind, is_dynamic: bool, lo: u32, hi: u32) -> (r:
        ImportDescriptor)
        ensures
            r@ == (ImportModel {
                specifier: specifier@,
                kind,
                is_dynamic,
                span: SourceSpan { lo, hi },
            }),
    {
        ImportDescriptor { specifier, kind, is_dynamic, span: SourceSpan { lo, hi } }
    }
}

impl Clone for ImportDescriptor {
    fn clone(&self) -> (r: ImportDescriptor)
        ensures
            r@ == self@,
    {
        ImportDescriptor {
            specifier: self.specifier.clone(),
            kind: self.kind,
            is_dynamic: self.is_dynamic,
            span: self.span,
        }
    }
}

/// Why a source text could not be read as a module.
#[derive(Debug, PartialEq, Eq)]
pub struct ParseError {
    pub message: String,
    /// Where the text stops making sense.
    pub span: SourceSpan,
    /// The line in which the span starts, counted from 1.
    pub line: u32,
    /// The byte of that line at which the span starts, counted from 1.
    pub column: u32,
}

/// A [`ParseError`] as a value of the logic.
pub struct ParseFault {
    pub message: Seq<char>,
    pub span: SourceSpan,
    pub line: u32,
    pub column: u32,
}

impl View for ParseError {
    type V = ParseFault;

    open spec fn view(&self) -> ParseFault {
        ParseFault {
            message: self.message@,
            span: self.span,
            line: self.line,
            column: self.column,
        }
    }
}

impl Clone for ParseError {
    fn clone(&self) -> (r: ParseError)
        ensures
            r@ == self@,
    {
        ParseError {
            message: self.message.clone(),
            span: self.span,
            line: self.line,
            column: self.column,
        }
    }
}

/// The text starts with a byte order mark.
pub open spec fn has_mark(bytes: Seq<u8>) -> bool {
    bytes.len() >= 3 && bytes[0] == 0xEF && bytes[1] == 0xBB && bytes[2] == 0xBF
}

/// The bytes that offsets count: all but a byte order mark at the start.
pub open spec fn counted_bytes(bytes: Seq<u8>) -> Seq<u8> {
    if has_mark(bytes) {
        bytes.skip(3)
    } else {
        bytes
    }
}

/// How many bytes of `bytes` stand before the offset, which counts from 1;
/// all of them where the offset lies behind the end.
pub open spec fn bytes_before(bytes: Seq<u8>, offset: u32) -> int {
    if offset == 0 {
        0
    } else if offset - 1 > bytes.len() {
        bytes.len() as int
    } else {
        offset - 1
    }
}

/// The number of line feeds in `bytes`.
pub open spec fn line_feeds(bytes: Seq<u8>) -> int
    decreases bytes.len(),
{
    if bytes.len() == 0 {
        0
    } else {
        line_feeds(bytes.drop_last()) + if bytes.last() == 10 {
            1int
        } else {
            0int
        }
    }
}

/// Where the last line of `bytes` starts: behind its last line feed.
pub open spec fn line_start(bytes: Seq<u8>) -> int
    decreases bytes.len(),
{
    if bytes.len() == 0 {
        0
    } else if bytes.last() == 10 {
        bytes.len() as int
    } else {
        line_start(bytes.drop_last())
    }
}

/// The line of the byte at `offset`, counted from 1.
pub open spec fn line_at(bytes: Seq<u8>, offset: u32) -> int {
    line_feeds(bytes.take(bytes_before(bytes, offset))) + 1
}

/// The place in its line of the byte at `offset`, counted from 1.
pub open spec fn column_at(bytes: Seq<u8>, offset: u32) -> int {
    bytes_before(bytes, offset) - line_start(bytes.take(bytes_before(bytes, offset))) + 1
}

/// The line and the column of the byte of `source` at `offset`. Offsets
/// count from 1 and pass over a byte order mark at the start of the text.
pub fn locate(source: &str, offset: u32) -> (r: (u32, u32))
    ensures
        r.0 == line_at(counted_bytes(encode_utf8(source@)), offset),
        r.1 == column_at(counted_bytes(encode_utf8(source@)), offset),
{
    let bytes = source.as_bytes();
    let n = bytes.len();
    let base: usize = if n >= 3 && bytes[0] == 0xEF && bytes[1] == 0xBB && bytes[2] == 0xBF {
        3
    } else {
        0
    };
    let ghost text = counted_bytes(bytes@);
    let m = n - base;
    let k: u32 = if offset == 0 {
        0
    } else if (offset - 1) as usize > m {
        m as u32
    } else {
        offset - 1
    };
    let mut line: u32 = 1;
    let mut start: u32 = 0;
    let mut i: u32 = 0;
    proof {
        assert(text =~= bytes@.skip(base as int));
        assert(text.take(0) =~= Seq::<u8>::empty());
    }
    while i < k
        invariant
            i <= k <= m,
            m == n - base,
            n == bytes@.len(),
            text == bytes@.skip(base as int),
            k < u32::MAX,
            k == bytes_before(text, offset),
            line == line_feeds(text.take(i as int)) + 1,
            start == line_start(text.take(i as int)),
            start <= i,
            line <= i + 1,
        decreases k - i,
    {
        proof {
            assert(text.take(i + 1).drop_last() =~= text.take(i as int));
            assert(text.take(i + 1).last() == bytes@[base + i]);
        }
        if bytes[base + i as usize] == 10 {
            line += 1;
            start = i + 1;
        }
        i += 1;
    }
    (line, k - start + 1)
}

/// The models of a list of descriptors.
pub open spec fn import_models(v: Seq<ImportDescriptor>) -> Seq<ImportModel> {
    Seq::new(v.len(), |i: int| v[i]@)
}

/// The outcome of an analysis as a value of the logic.
pub open spec fn analysis_model(r: Result<Vec<ImportDescriptor>, ParseError>) -> Result<
    Seq<ImportModel>,
    ParseFault,
> {
    match r {
        Ok(v) => Ok(import_models(v@)),
        Err(e) => Err(e@),
    }
}

/// The kind that stands at position `index` among the seven kinds.
pub open spec fn kind_at(index: u8) -> ImportKind {
    if index == 0 {
        ImportKind::Import
    } else if index == 1 {
        ImportKind::ImportType
    } else if index == 2 {
        ImportKind::ImportEquals
    } else if index == 3 {
        ImportKind::Export
    } else if index == 4 {
        ImportKind::ExportType
    } else if index == 5 {
        ImportKind::ExportEquals
    } else {
        ImportKind::Require
    }
}

/// A statement as the analysis reports it: specifier, position of its kind,
/// whether it is dynamic, start and end of its span.
pub type RawImport = (String, u8, bool, u32, u32);

/// A failure as the parser reports it: message, start and end of the span.
pub type RawFault = (String, u32, u32);

/// The descriptor that a raw statement stands for.
pub open spec fn decoded(raw: (Seq<char>, u8, bool, u32, u32)) -> ImportModel {
    ImportModel {
        specifier: raw.0,
        kind: kind_at(raw.1),
        is_dynamic: raw.2,
        span: SourceSpan { lo: raw.3, hi: raw.4 },
    }
}

/// The descriptors that a raw analysis of `source` stands for, or the error
/// with the line and the column at which its span starts.
pub open spec fn decoded_analysis(
    source: Seq<char>,
    raw: Result<Seq<(Seq<char>, u8, bool, u32, u32)>, (Seq<char>, u32, u32)>,
) -> Result<Seq<ImportModel>, ParseFault> {
    match raw {
        Ok(items) => Ok(Seq::new(items.len(), |i: int| decoded(items[i]))),
        Err(e) => Err(
            ParseFault {
                message: e.0,
                span: SourceSpan { lo: e.1, hi: e.2 },
                line: line_at(counted_bytes(encode_utf8(source)), e.1) as u32,
                column: column_at(counted_bytes(encode_utf8(source)), e.1) as u32,
            },
        ),
    }
}

/// A raw outcome as a value of the logic.
pub open spec fn raw_model(r: Result<Vec<RawImport>, RawFault>) -> Result<
    Seq<(Seq<char>, u8, bool, u32, u32)>,
    (Seq<char>, u32, u32),
> {
    match r {
        Ok(v) => Ok(Seq::new(v@.len(), |i: int| (v@[i].0@, v@[i].1, v@[i].2, v@[i].3, v@[i].4))),
        Err(e) => Err((e.0@, e.1, e.2)),
    }
}

/// What the TypeScript parser and the dependency analysis of swc make of a
/// source text. Either the statements that name another module, in source
/// order, each with its specifier, the position of its kind among the kinds
/// that the analysis tells apart, whether the analysis calls it dynamic, and
/// the span of the statement; or the message and the span of the error at
/// which the parser gave up.
pub uninterp spec fn raw_analysis(source: Seq<char>) -> Result<
    Seq<(Seq<char>, u8, bool, u32, u32)>,
    (Seq<char>, u32, u32),
>;

/// The descriptors of the statements of `source` that name another module,
/// in source order, or the error at which the parser gave up.
pub open spec fn analysis(source: Seq<char>) -> Result<Seq<ImportModel>, ParseFault> {
    decoded_analysis(source, raw_analysis(source))
}

/// Parses `source` as a TypeScript module with
/// `swc_ecma_parser::Parser::parse_typescript_module` and lists what it
/// depends on with `swc_ecma_dep_graph::analyze_dependencies`. Believed, not
/// proved: the outcome depends on the text alone. The kind of a statement is
/// handed over as the position of its variant in
/// `swc_ecma_dep_graph::DependencyKind`, counted from 0.
#[verifier::external_body]
fn analyze_raw(source: &str) -> (r: Result<Vec<RawImport>, RawFault>)
    ensures
        raw_model(r) == raw_analysis(source@),
{
    let cm = SourceMap::default();
    let fm = cm.new_source_file(FileName::Anon, source.into());
    let comments = SingleThreadedComments::default();
    let mut parser = Parser::new(Syntax::Typescript(Default::default()), (&*fm).into(), Some(&comments));
    match parser.parse_typescript_module() {
        Err(e) => Err((e.kind().msg().into(), e.span().lo.0, e.span().hi.0)),
        Ok(m) => Ok(analyze_dependencies(&m, &comments).iter().map(|d| (d.specifier.to_string(), d.kind.clone() as u8, d.is_dynamic, d.span.lo.0, d.span.hi.0)).collect()),
    }
}

impl ImportKind {
    /// The kind that stands at position `index` among the seven kinds; the
    /// last one for any greater index.
    pub fn from_index(index: u8) -> (r: ImportKind)
        ensures
            r == kind_at(index),
    {
        if index == 0 {
            ImportKind::Import
        } else if index == 1 {
            ImportKind::ImportType
        } else if index == 2 {
            ImportKind::ImportEquals
        } else if index == 3 {
            ImportKind::Export
        } else if index == 4 {
            ImportKind::ExportType
        } else if index == 5 {
            ImportKind::ExportEquals
        } else {
            ImportKind::Require
        }
    }
}

/// The descriptors of the statements of `source` that name another module,
/// or the error at which the parser gave up.
pub fn analyze(source: &str) -> (r: Result<Vec<ImportDescriptor>, ParseError>)
    ensures
        analysis_model(r) == analysis(source@),
{
    match analyze_raw(source) {
        Ok(items) => {
            let ghost raw = raw_model(Ok(items))->Ok_0;
            let mut descriptors: Vec<ImportDescriptor> = Vec::new();
            let n = items.len();
            let mut i: usize = 0;
            while i < n
                invariant
                    i <= n,
                    n == items.len(),
                    descriptors.len() == i,
                    raw == raw_model(Ok(items))->Ok_0,
                    forall|j: int| 0 <= j < i ==> descriptors[j]@ == decoded(raw[j]),
                decreases n - i,
            {
                let kind = ImportKind::from_index(items[i].1);
                let d = ImportDescriptor::new(
                    items[i].0.clone(),
                    kind,
                    items[i].2,
                    items[i].3,
                    items[i].4,
                );
                proof {
                    let item = items@[i as int];
                    assert(raw[i as int] == (item.0@, item.1, item.2, item.3, item.4));
                }
                descriptors.push(d);
                i += 1;
            }
            proof {
                assert(import_models(descriptors@) =~= Seq::new(raw.len(), |i: int| decoded(raw[i])));
            }
            Ok(descriptors)
        },
        Err(e) => {
            let (line, column) = locate(source, e.1);
            Err(ParseError { message: e.0, span: SourceSpan { lo: e.1, hi: e.2 }, line, column })
        },
    }
}

/// The graph follows an import statement of a relative specifier: not a
/// type import, not an export, not a call.
pub open spec fn is_relative_import(d: ImportModel) -> bool {
    d.kind == ImportKind::Import && !d.is_dynamic && is_relative(d.specifier)
}

/// The descriptors that the graph follows, in their order.
pub open spec fn relative_imports(ds: Seq<ImportModel>) -> Seq<ImportModel>
    decreases ds.len(),
{
    if ds.len() == 0 {
        Seq::<ImportModel>::empty()
    } else {
        let rest = relative_imports(ds.drop_last());
        if is_relative_import(ds.last()) {
            rest.push(ds.last())
        } else {
            rest
        }
    }
}

/// What the graph follows of an analysis.
pub open spec fn followed(outcome: Result<Seq<ImportModel>, ParseFault>) -> Result<
    Seq<ImportModel>,
    ParseFault,
> {
    match outcome {
        Ok(ds) => Ok(relative_imports(ds)),
        Err(e) => Err(e),
    }
}

/// Whether the graph follows `d`.
pub fn follows(d: &ImportDescriptor) -> (r: bool)
    ensures
        r == is_relative_import(d@),
{
    match d.kind {
        ImportKind::Import => !d.is_dynamic && is_relative_text(d.specifier.as_str()),
        _ => false,
    }
}

/// The descriptors among `descriptors` that the graph follows, in their
/// order. Bare specifiers, type imports, exports, requires and import calls
/// are left out.
pub fn retain_relative_imports(descriptors: &Vec<ImportDescriptor>) -> (r: Vec<ImportDescriptor>)
    ensures
        import_models(r@) == relative_imports(import_models(descriptors@)),
{
    let mut kept: Vec<ImportDescriptor> = Vec::new();
    let n = descriptors.len();
    let mut i: usize = 0;
    let ghost all = import_models(descriptors@);
    proof {
        assert(all.take(0) =~= Seq::<ImportModel>::empty());
        assert(import_models(kept@) =~= Seq::<ImportModel>::empty());
    }
    while i < n
        invariant
            i <= n,
            n == descriptors.len(),
            all == import_models(descriptors@),
            import_models(kept@) == relative_imports(all.take(i as int)),
        decreases n - i,
    {
        proof {
            assert(all.take(i + 1).drop_last() =~= all.take(i as int));
            assert(all.take(i + 1).last() == descriptors[i as int]@);
        }
        if follows(&descriptors[i]) {
            let ghost before = import_models(kept@);
            kept.push(descriptors[i].clone());
            proof {
                assert(import_models(kept@) =~= before.push(descriptors[i as int]@));
            }
        }
        i += 1;
    }
    proof {
        assert(all.take(n as int) =~= all);
    }
    kept
}

/// The import descriptors of the TypeScript module `source` that the graph
/// follows, or the error at which the parser gave up.
pub fn relative_imports_of(source: &str) -> (r: Result<Vec<ImportDescriptor>, ParseError>)
    ensures
        analysis_model(r) == followed(analysis(source@)),
{
    match analyze(source) {
        Ok(descriptors) => Ok(retain_relative_imports(&descriptors)),
        Err(e) => Err(e),
    }
}

} // verus!
