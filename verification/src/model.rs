use vstd::prelude::*;

verus! {

/// One numeric value parsed from the text grammar: rank 0 (a 32-bit float,
/// a 32-bit signed integer, or a boolean flag), rank 1 (a single row of
/// 32-bit floats), or rank 2 (a matrix of 32-bit floats).
///
/// Floats are carried as their IEEE-754 bit patterns (`u32`), exactly as the
/// float scanner produced them; nothing in this crate computes with them.
#[derive(Debug, Clone, PartialEq, Eq)]
pub enum Tensor {
    FloatScalar(u32),
    IntScalar(i32),
    BoolScalar(bool),
    Vector(Vec<u32>),
    Matrix { rows: usize, cols: usize, data: Vec<u32> },
}

pub enum TensorView {
    FloatScalar(u32),
    IntScalar(int),
    BoolScalar(bool),
    Vector(Seq<u32>),
    Matrix { rows: nat, cols: nat, data: Seq<u32> },
}

impl View for Tensor {
    type V = TensorView;

    open spec fn view(&self) -> TensorView {
        match self {
            Tensor::FloatScalar(b) => TensorView::FloatScalar(*b),
            Tensor::IntScalar(v) => TensorView::IntScalar(*v as int),
            Tensor::BoolScalar(b) => TensorView::BoolScalar(*b),
            Tensor::Vector(d) => TensorView::Vector(d@),
            Tensor::Matrix { rows, cols, data } => TensorView::Matrix {
                rows: *rows as nat,
                cols: *cols as nat,
                data: data@,
            },
        }
    }
}

/// A well-formed matrix holds exactly `rows * cols` elements.
pub open spec fn tensor_wf(t: TensorView) -> bool {
    match t {
        TensorView::Matrix { rows, cols, data } => data.len() == rows * cols,
        _ => true,
    }
}

/// The view of a sequence of named entries: each name as its characters,
/// each value as its own view.
pub open spec fn entries_view<T: View>(m: Seq<(String, T)>) -> Seq<(Seq<char>, <T as View>::V)> {
    Seq::new(m.len(), |k: int| (m[k].0@, m[k].1@))
}

/// One named unit of the network: the class name written in its opening tag,
/// and its attributes in order, keyed by attribute name.  Keys are unique;
/// a duplicate attribute name overwrites the earlier entry (last writer wins).
#[derive(Debug, Clone, PartialEq, Eq)]
pub struct Component {
    pub klass: String,
    pub attributes: Vec<(String, Tensor)>,
}

pub struct ComponentView {
    pub klass: Seq<char>,
    pub attributes: Seq<(Seq<char>, TensorView)>,
}

impl View for Component {
    type V = ComponentView;

    open spec fn view(&self) -> ComponentView {
        ComponentView { klass: self.klass@, attributes: entries_view(self.attributes@) }
    }
}

/// The parse result: the raw, unparsed configuration text (everything between
/// the opening tag and the component-count marker, handed on verbatim), and
/// the components in order of first appearance, keyed by component name.
/// Keys are unique; a duplicate name overwrites the earlier entry.
#[derive(Debug, Clone, PartialEq, Eq)]
pub struct KaldiProtoModel {
    pub config_lines: String,
    pub components: Vec<(String, Component)>,
}

pub struct ModelView {
    pub config_lines: Seq<char>,
    pub components: Seq<(Seq<char>, ComponentView)>,
}

impl View for KaldiProtoModel {
    type V = ModelView;

    open spec fn view(&self) -> ModelView {
        ModelView {
            config_lines: self.config_lines@,
            components: entries_view(self.components@),
        }
    }
}

/// A structured parse failure: the byte offset where matching stopped, and
/// the token that was expected there.
#[derive(Debug, Clone, PartialEq, Eq)]
pub struct ParseError {
    pub pos: usize,
    pub expected: String,
}

/// Everything that can go wrong at the public entry point: a syntactic
/// mismatch somewhere in the envelope, or a configuration section that is
/// not valid UTF-8.
#[derive(Debug, Clone, PartialEq, Eq)]
pub enum ModelError {
    Parse(ParseError),
    Utf8,
}

} // verus!
