//! The document model: one documentation entry and its nested metadata,
//! plus the corpus type that owns an ordered sequence of entries.

use vstd::prelude::*;

verus! {

/// A structural path through the hierarchical namespace, e.g.
/// `["lib", "lists", "map"]`.
pub type ValuePath = Vec<String>;

/// Whether a source position refers to a function definition site or to
/// an attribute-set binding site.
#[derive(Clone, Copy, Debug, PartialEq, Eq, Structural)]
pub enum PositionType {
    Lambda,
    Attribute,
}

impl DeepView for PositionType {
    type V = PositionType;

    open spec fn deep_view(&self) -> PositionType {
        *self
    }
}

/// A position in a source file; line and column are 1-based by the
/// convention of the producing toolchain.
#[derive(Clone, Debug)]
pub struct FilePosition {
    pub file: String,
    pub line: i64,
    pub column: i64,
}

#[verifier::ext_equal]
pub ghost struct FilePositionV {
    pub file: Seq<char>,
    pub line: i64,
    pub column: i64,
}

impl DeepView for FilePosition {
    type V = FilePositionV;

    open spec fn deep_view(&self) -> FilePositionV {
        FilePositionV { file: self.file.deep_view(), line: self.line, column: self.column }
    }
}

/// Where documentation text came from: an optional position, an optional
/// structural path when provenance differs from the entry's own path, and
/// the kind of site the position refers to.
#[derive(Clone, Debug)]
pub struct SourceOrigin {
    pub position: Option<FilePosition>,
    pub path: Option<ValuePath>,
    pub pos_type: Option<PositionType>,
}

#[verifier::ext_equal]
pub ghost struct SourceOriginV {
    pub position: Option<FilePositionV>,
    pub path: Option<Seq<Seq<char>>>,
    pub pos_type: Option<PositionType>,
}

impl DeepView for SourceOrigin {
    type V = SourceOriginV;

    open spec fn deep_view(&self) -> SourceOriginV {
        SourceOriginV {
            position: self.position.deep_view(),
            path: self.path.deep_view(),
            pos_type: self.pos_type.deep_view(),
        }
    }
}

/// Metadata describing a built-in operation.
#[derive(Clone, Debug)]
pub struct PrimopMeta {
    pub name: Option<String>,
    pub args: Option<Vec<String>>,
    pub experimental: Option<bool>,
    pub arity: Option<i32>,
}

#[verifier::ext_equal]
pub ghost struct PrimopMetaV {
    pub name: Option<Seq<char>>,
    pub args: Option<Seq<Seq<char>>>,
    pub experimental: Option<bool>,
    pub arity: Option<i32>,
}

impl DeepView for PrimopMeta {
    type V = PrimopMetaV;

    open spec fn deep_view(&self) -> PrimopMetaV {
        PrimopMetaV {
            name: self.name.deep_view(),
            args: self.args.deep_view(),
            experimental: self.experimental.deep_view(),
            arity: self.arity.deep_view(),
        }
    }
}

/// The rendered documentation text of an entry together with its
/// provenance.
#[derive(Clone, Debug)]
pub struct ContentSource {
    pub content: Option<String>,
    pub source: Option<SourceOrigin>,
}

#[verifier::ext_equal]
pub ghost struct ContentSourceV {
    pub content: Option<Seq<char>>,
    pub source: Option<SourceOriginV>,
}

impl DeepView for ContentSource {
    type V = ContentSourceV;

    open spec fn deep_view(&self) -> ContentSourceV {
        ContentSourceV { content: self.content.deep_view(), source: self.source.deep_view() }
    }
}

/// Identifying and structural metadata of one entry. `title` is the
/// entry's best-effort primary key within a corpus; all other fields are
/// independently optional attributes of the documented function.
#[derive(Clone, Debug)]
pub struct Meta {
    pub title: String,
    pub path: ValuePath,
    pub aliases: Option<Vec<ValuePath>>,
    pub is_primop: Option<bool>,
    pub is_functor: Option<bool>,
    pub primop_meta: Option<PrimopMeta>,
    pub attr_position: Option<FilePosition>,
    pub attr_expr: Option<String>,
    pub lambda_position: Option<FilePosition>,
    pub lambda_expr: Option<String>,
    pub count_applied: Option<i64>,
    pub content_meta: Option<SourceOrigin>,
    pub signature: Option<String>,
}

#[verifier::ext_equal]
pub ghost struct MetaV {
    pub title: Seq<char>,
    pub path: Seq<Seq<char>>,
    pub aliases: Option<Seq<Seq<Seq<char>>>>,
    pub is_primop: Option<bool>,
    pub is_functor: Option<bool>,
    pub primop_meta: Option<PrimopMetaV>,
    pub attr_position: Option<FilePositionV>,
    pub attr_expr: Option<Seq<char>>,
    pub lambda_position: Option<FilePositionV>,
    pub lambda_expr: Option<Seq<char>>,
    pub count_applied: Option<i64>,
    pub content_meta: Option<SourceOriginV>,
    pub signature: Option<Seq<char>>,
}

impl DeepView for Meta {
    type V = MetaV;

    open spec fn deep_view(&self) -> MetaV {
        MetaV {
            title: self.title.deep_view(),
            path: self.path.deep_view(),
            aliases: self.aliases.deep_view(),
            is_primop: self.is_primop.deep_view(),
            is_functor: self.is_functor.deep_view(),
            primop_meta: self.primop_meta.deep_view(),
            attr_position: self.attr_position.deep_view(),
            attr_expr: self.attr_expr.deep_view(),
            lambda_position: self.lambda_position.deep_view(),
            lambda_expr: self.lambda_expr.deep_view(),
            count_applied: self.count_applied.deep_view(),
            content_meta: self.content_meta.deep_view(),
            signature: self.signature.deep_view(),
        }
    }
}

/// One documentation entry: its metadata and, optionally, its rendered
/// documentation text.
#[derive(Clone, Debug)]
pub struct Doc {
    pub meta: Meta,
    pub content: Option<ContentSource>,
}

#[verifier::ext_equal]
pub ghost struct DocV {
    pub meta: MetaV,
    pub content: Option<ContentSourceV>,
}

impl DeepView for Doc {
    type V = DocV;

    open spec fn deep_view(&self) -> DocV {
        DocV { meta: self.meta.deep_view(), content: self.content.deep_view() }
    }
}

/// The read-only corpus: an ordered sequence of entries. Order is
/// insertion order from the source dataset; it matters only for the
/// determinism of lookup and of tie-breaking in search.
#[derive(Clone, Debug)]
pub struct Docs(pub Vec<Doc>);

impl DeepView for Docs {
    type V = Seq<DocV>;

    open spec fn deep_view(&self) -> Seq<DocV> {
        self.0.deep_view()
    }
}

impl Docs {
    /// Linear scan: the first entry whose title equals `title`, in corpus
    /// order, or `None` when no entry's title equals it.
    pub fn get_by_title<'a>(&'a self, title: &str) -> (r: Option<&'a Doc>)
        ensures
            match r {
                Some(d) => exists|i: int|
                    0 <= i < self.deep_view().len() && (#[trigger] self.deep_view()[i]).meta.title
                        == title@ && d.deep_view() == self.deep_view()[i] && forall|j: int|
                        0 <= j < i ==> (#[trigger] self.deep_view()[j]).meta.title != title@,
                None => forall|i: int|
                    0 <= i < self.deep_view().len() ==> (#[trigger] self.deep_view()[i]).meta.title
                        != title@,
            },
    {
        let t = title.to_owned();
        let n = self.0.len();
        for i in 0..n
            invariant
                n == self.0.len(),
                t@ == title@,
                forall|j: int|
                    0 <= j < i ==> (#[trigger] self.deep_view()[j]).meta.title != title@,
        {
            if self.0[i].meta.title == t {
                proof {
                    assert(self.deep_view()[i as int] == self.0@[i as int].deep_view());
                }
                return Some(&self.0[i]);
            }
            proof {
                assert(self.deep_view()[i as int] == self.0@[i as int].deep_view());
            }
        }
        None
    }
}

} // verus!
