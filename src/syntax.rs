//! The depth-first stream of syntax nodes that the extractors read, and its
//! construction from tree-sitter's C++ grammar.
use vstd::prelude::*;
use vstd::string::*;
use vstd::utf8::*;
use tree_sitter::Node as TsNode;

verus! {

/// tree_sitter's `Parser`, carried through opaque.
#[verifier::external_type_specification]
#[verifier::external_body]
pub struct ExParser(tree_sitter::Parser);

/// tree_sitter's `Language`, carried through opaque.
#[verifier::external_type_specification]
#[verifier::external_body]
pub struct ExLanguage(tree_sitter::Language);

/// tree_sitter's `LanguageError`, carried through opaque.
#[verifier::external_type_specification]
#[verifier::external_body]
pub struct ExLanguageError(tree_sitter::LanguageError);

/// tree_sitter's `Tree`, carried through opaque.
#[verifier::external_type_specification]
#[verifier::external_body]
pub struct ExTree(tree_sitter::Tree);

/// tree_sitter's `TreeCursor`, carried through opaque.
#[verifier::external_type_specification]
#[verifier::external_body]
pub struct ExTreeCursor<'a>(tree_sitter::TreeCursor<'a>);

/// tree_sitter's `Node`, carried through opaque.
#[verifier::external_type_specification]
#[verifier::external_body]
pub struct ExSyntaxNode<'a>(TsNode<'a>);

/// Relies on tree_sitter's `Parser::new`: a parser with no language; nothing
/// is promised of it.
pub assume_specification[ tree_sitter::Parser::new ]() -> tree_sitter::Parser;

/// Relies on tree_sitter_cpp's `language`: the C++ grammar; nothing is
/// promised of it.
pub assume_specification[ tree_sitter_cpp::language ]() -> tree_sitter::Language;

/// Relies on tree_sitter's `Parser::set_language`: sets the grammar, or fails
/// on a version mismatch; nothing is promised of which.
pub assume_specification[ tree_sitter::Parser::set_language ](
    p: &mut tree_sitter::Parser,
    language: tree_sitter::Language,
) -> Result<(), tree_sitter::LanguageError>;

/// Relies on tree_sitter's `Tree::walk`: a cursor on the root; nothing is
/// promised of it.
pub assume_specification<'a>[ tree_sitter::Tree::walk ](t: &'a tree_sitter::Tree) -> tree_sitter::TreeCursor<'a>;

/// Relies on tree_sitter's `TreeCursor::node`: the cursor's node; nothing is
/// promised of it.
pub assume_specification<'a>[ tree_sitter::TreeCursor::<'a>::node ](
    c: &tree_sitter::TreeCursor<'a>,
) -> TsNode<'a>;

/// Relies on tree_sitter's `TreeCursor::goto_first_child`, which moves to the
/// first child if there is one; nothing is promised of the answer.
pub assume_specification<'a>[ tree_sitter::TreeCursor::<'a>::goto_first_child ](
    c: &mut tree_sitter::TreeCursor<'a>,
) -> bool;

/// Relies on tree_sitter's `TreeCursor::goto_next_sibling`, which moves to the
/// next sibling if there is one; nothing is promised of the answer.
pub assume_specification<'a>[ tree_sitter::TreeCursor::<'a>::goto_next_sibling ](
    c: &mut tree_sitter::TreeCursor<'a>,
) -> bool;

/// Relies on tree_sitter's `TreeCursor::goto_parent`, which moves to the parent
/// if there is one; nothing is promised of the answer.
pub assume_specification<'a>[ tree_sitter::TreeCursor::<'a>::goto_parent ](
    c: &mut tree_sitter::TreeCursor<'a>,
) -> bool;

/// Relies on tree_sitter's `Node::kind`: the grammar's name of the node's
/// kind; nothing is promised of it.
pub assume_specification<'a>[ TsNode::<'a>::kind ](n: &TsNode<'a>) -> &'static str;

/// Relies on tree_sitter's `Node::start_byte`; the walk checks the range itself.
pub assume_specification<'a>[ TsNode::<'a>::start_byte ](n: &TsNode<'a>) -> usize;

/// Relies on tree_sitter's `Node::end_byte`; the walk checks the range itself.
pub assume_specification<'a>[ TsNode::<'a>::end_byte ](n: &TsNode<'a>) -> usize;

/// Relies on tree_sitter's `Parser::parse`, which hands back the syntax tree of
/// `text`, or nothing where parsing was cancelled or no language is set.
#[verifier::external_body]
fn parse_bytes(p: &mut tree_sitter::Parser, text: &[u8]) -> (r: Option<tree_sitter::Tree>) {
    p.parse(text, None)
}

/// Relies on tree_sitter's `Node::start_position`: the 0-based line on which the
/// node starts.
#[verifier::external_body]
fn start_row(n: &TsNode) -> (r: usize) {
    n.start_position().row
}

/// What `String::from_utf8_lossy` makes of a byte sequence.
pub uninterp spec fn utf8_text(b: Seq<u8>) -> Seq<char>;

/// Relies on `String::from_utf8_lossy`: the characters that `b` encodes, with a
/// replacement character for each invalid sequence; valid UTF-8 is decoded as is.
#[verifier::external_body]
pub(crate) fn text_of(b: &[u8]) -> (r: String)
    ensures
        r@ == utf8_text(b@),
        valid_utf8(b@) ==> r@ == decode_utf8(b@),
{
    String::from_utf8_lossy(b).into_owned()
}

/// `s` with every occurrence of `p` removed, occurrences taken from the left
/// without overlap; an empty `p` removes nothing.
pub open spec fn without(s: Seq<char>, p: Seq<char>) -> Seq<char>
    decreases s.len(),
{
    if p.len() == 0 || s.len() == 0 {
        s
    } else if p.len() <= s.len() && s.take(p.len() as int) == p {
        without(s.skip(p.len() as int), p)
    } else {
        seq![s[0]] + without(s.skip(1), p)
    }
}

/// `s` with every occurrence of each of `ps` removed, one pattern after the other.
pub open spec fn without_all(s: Seq<char>, ps: Seq<Seq<char>>) -> Seq<char>
    decreases ps.len(),
{
    if ps.len() == 0 {
        s
    } else {
        without(without_all(s, ps.drop_last()), ps.last())
    }
}

/// Relies on `str::replace` with an empty replacement: every match of `p`,
/// found from the left without overlap, is removed.
#[verifier::external_body]
fn remove_all(s: &str, p: &str) -> (r: String)
    ensures
        r@ == without(s@, p@),
{
    s.replace(p, "")
}

/// The bytes parsed for `source` once every occurrence of each of `macros`
/// is removed.
pub open spec fn blanked(source: Seq<char>, macros: Seq<String>) -> Seq<u8> {
    encode_utf8(without_all(source, macros.map_values(|m: String| m@)))
}

/// The kinds of syntax node that the extractors tell apart; every other kind
/// is `Other`.
#[derive(PartialEq, Eq, Structural, Clone, Copy, Debug)]
pub enum SyntaxKind {
    StructSpecifier,
    ClassSpecifier,
    TypeIdentifier,
    FunctionDefinition,
    FunctionDeclarator,
    Identifier,
    FieldIdentifier,
    QualifiedIdentifier,
    DestructorName,
    OperatorName,
    CallExpression,
    FieldExpression,
    AliasDeclaration,
    TypeDefinition,
    TemplateType,
    FieldDeclarationList,
    BaseClassClause,
    Other,
}

/// The grammar's name for each kind of node.
pub open spec fn kind_name(k: SyntaxKind) -> Seq<char> {
    match k {
        SyntaxKind::StructSpecifier => "struct_specifier"@,
        SyntaxKind::ClassSpecifier => "class_specifier"@,
        SyntaxKind::TypeIdentifier => "type_identifier"@,
        SyntaxKind::FunctionDefinition => "function_definition"@,
        SyntaxKind::FunctionDeclarator => "function_declarator"@,
        SyntaxKind::Identifier => "identifier"@,
        SyntaxKind::FieldIdentifier => "field_identifier"@,
        SyntaxKind::QualifiedIdentifier => "qualified_identifier"@,
        SyntaxKind::DestructorName => "destructor_name"@,
        SyntaxKind::OperatorName => "operator_name"@,
        SyntaxKind::CallExpression => "call_expression"@,
        SyntaxKind::FieldExpression => "field_expression"@,
        SyntaxKind::AliasDeclaration => "alias_declaration"@,
        SyntaxKind::TypeDefinition => "type_definition"@,
        SyntaxKind::TemplateType => "template_type"@,
        SyntaxKind::FieldDeclarationList => "field_declaration_list"@,
        SyntaxKind::BaseClassClause => "base_class_clause"@,
        SyntaxKind::Other => Seq::empty(),
    }
}

impl SyntaxKind {
    /// The kind that the grammar calls `name`.
    pub fn from_name(name: &str) -> (r: SyntaxKind)
        ensures
            r != SyntaxKind::Other ==> kind_name(r) == name@,
            r == SyntaxKind::Other ==> forall|k: SyntaxKind|
                k != SyntaxKind::Other ==> kind_name(k) != name@,
    {
        let s = String::from_str(name);
        if s == String::from_str("struct_specifier") {
            SyntaxKind::StructSpecifier
        } else if s == String::from_str("class_specifier") {
            SyntaxKind::ClassSpecifier
        } else if s == String::from_str("type_identifier") {
            SyntaxKind::TypeIdentifier
        } else if s == String::from_str("function_definition") {
            SyntaxKind::FunctionDefinition
        } else if s == String::from_str("function_declarator") {
            SyntaxKind::FunctionDeclarator
        } else if s == String::from_str("identifier") {
            SyntaxKind::Identifier
        } else if s == String::from_str("field_identifier") {
            SyntaxKind::FieldIdentifier
        } else if s == String::from_str("qualified_identifier") {
            SyntaxKind::QualifiedIdentifier
        } else if s == String::from_str("destructor_name") {
            SyntaxKind::DestructorName
        } else if s == String::from_str("operator_name") {
            SyntaxKind::OperatorName
        } else if s == String::from_str("call_expression") {
            SyntaxKind::CallExpression
        } else if s == String::from_str("field_expression") {
            SyntaxKind::FieldExpression
        } else if s == String::from_str("alias_declaration") {
            SyntaxKind::AliasDeclaration
        } else if s == String::from_str("type_definition") {
            SyntaxKind::TypeDefinition
        } else if s == String::from_str("template_type") {
            SyntaxKind::TemplateType
        } else if s == String::from_str("field_declaration_list") {
            SyntaxKind::FieldDeclarationList
        } else if s == String::from_str("base_class_clause") {
            SyntaxKind::BaseClassClause
        } else {
            SyntaxKind::Other
        }
    }
}

/// One node of the depth-first stream: its kind, its byte range in the
/// source, and the 0-based line on which it starts.
#[derive(PartialEq, Eq, Structural, Clone, Copy, Debug)]
pub struct SyntaxNode {
    pub kind: SyntaxKind,
    pub start_byte: usize,
    pub end_byte: usize,
    pub row: usize,
}

/// Whether `n` lies within a source of `len` bytes.
pub open spec fn node_in(n: SyntaxNode, len: nat) -> bool {
    n.start_byte <= n.end_byte <= len && n.row < usize::MAX
}

/// Why a source could not be turned into a syntax stream.
#[derive(PartialEq, Eq, Structural, Clone, Copy, Debug)]
pub enum SyntaxError {
    /// The C++ grammar could not be loaded.
    GrammarUnavailable,
    /// The parser produced no tree.
    ParseFailed,
    /// The tree did not fit the walk's step budget.
    TreeTooLarge,
    /// The parser reported a node outside the source.
    NodeOutOfRange,
}

/// A parsed file: its name, the bytes that were parsed, and the depth-first
/// stream of its syntax nodes (each node before its descendants, siblings in
/// source order).
pub struct SyntaxTree {
    pub file: String,
    pub source: Vec<u8>,
    pub nodes: Vec<SyntaxNode>,
}

impl SyntaxTree {
    /// The bytes that were parsed.
    pub open spec fn bytes(&self) -> Seq<u8> {
        self.source@
    }

    /// The node stream.
    pub open spec fn stream(&self) -> Seq<SyntaxNode> {
        self.nodes@
    }

    /// Every node lies within the source.
    pub open spec fn wf(&self) -> bool {
        forall|i: int| 0 <= i < self.stream().len() ==> node_in(#[trigger] self.stream()[i], self.bytes().len())
    }

    /// A syntax tree made of a node stream that some parser produced for
    /// `source`; nothing where a node lies outside the source.
    pub fn from_parts(file: String, source: Vec<u8>, nodes: Vec<SyntaxNode>) -> (r: Option<
        SyntaxTree,
    >)
        ensures
            r is Some <==> forall|i: int| 0 <= i < nodes@.len() ==> node_in(#[trigger] nodes@[i], source@.len()),
            r is Some ==> r->0.wf() && r->0.file@ == file@ && r->0.bytes() == source@
                && r->0.stream() == nodes@,
    {
        let mut i: usize = 0;
        while i < nodes.len()
            invariant
                0 <= i <= nodes.len(),
                forall|j: int| 0 <= j < i ==> node_in(#[trigger] nodes@[j], source@.len()),
            decreases nodes.len() - i,
        {
            let n = nodes[i];
            if !(n.start_byte <= n.end_byte && n.end_byte <= source.len() && n.row < usize::MAX) {
                return None;
            }
            i = i + 1;
        }
        Some(SyntaxTree { file, source, nodes })
    }

    /// Parses `source` as C++ after removing every occurrence of each of
    /// `ignore_macros` (literal texts that would confuse the parser).
    ///
    /// The errors: `TreeTooLarge` for a text of `usize::MAX / 64` bytes or more
    /// (checked before parsing), or where the walk spends its budget of 64 steps
    /// per byte before coming back to the root; `GrammarUnavailable` where the
    /// parser refuses the C++ grammar; `ParseFailed` where it gives no tree;
    /// `NodeOutOfRange` where it reports a node outside the text. Which of the
    /// last three comes is the parser's decision.
    pub fn new(file: String, source: String, ignore_macros: &Vec<String>) -> (r: Result<
        SyntaxTree,
        SyntaxError,
    >)
        ensures
            r is Ok ==> r->Ok_0.wf() && r->Ok_0.file@ == file@ && r->Ok_0.bytes() == blanked(
                source@,
                ignore_macros@,
            ),
            blanked(source@, ignore_macros@).len() >= usize::MAX / 64 ==> r == Err::<
                SyntaxTree,
                SyntaxError,
            >(SyntaxError::TreeTooLarge),
            r is Ok ==> blanked(source@, ignore_macros@).len() < usize::MAX / 64,
            (r == Err::<SyntaxTree, SyntaxError>(SyntaxError::GrammarUnavailable) || r == Err::<
                SyntaxTree,
                SyntaxError,
            >(SyntaxError::ParseFailed) || r == Err::<SyntaxTree, SyntaxError>(
                SyntaxError::NodeOutOfRange,
            )) ==> blanked(source@, ignore_macros@).len() < usize::MAX / 64,
    {
        let mut text = source;
        for k in 0..ignore_macros.len()
            invariant
                text@ == without_all(
                    source@,
                    ignore_macros@.subrange(0, k as int).map_values(|m: String| m@),
                ),
        {
            text = remove_all(text.as_str(), ignore_macros[k].as_str());
            proof {
                let ms = ignore_macros@.subrange(0, k + 1).map_values(|m: String| m@);
                assert(ms.drop_last() =~= ignore_macros@.subrange(0, k as int).map_values(
                    |m: String| m@,
                ));
            }
        }
        proof {
            assert(ignore_macros@.subrange(0, ignore_macros@.len() as int) =~= ignore_macros@);
        }
        let bytes = text.as_str().as_bytes_vec();
        proof {
            assert(bytes@ == blanked(source@, ignore_macros@));
        }
        if bytes.len() >= usize::MAX / 64 {
            return Err(SyntaxError::TreeTooLarge);
        }
        let mut parser = tree_sitter::Parser::new();
        let language = tree_sitter_cpp::language();
        if parser.set_language(language).is_err() {
            return Err(SyntaxError::GrammarUnavailable);
        }
        let tree = match parse_bytes(&mut parser, bytes.as_slice()) {
            Some(t) => t,
            None => {
                return Err(SyntaxError::ParseFailed);
            },
        };
        let mut walk = NodeIterator::new(&tree, (bytes.len() + 1) * 64);
        let mut nodes: Vec<SyntaxNode> = Vec::new();
        loop
            invariant
                forall|j: int| 0 <= j < nodes@.len() ==> node_in(#[trigger] nodes@[j], bytes@.len()),
                bytes@ == blanked(source@, ignore_macros@),
                bytes@.len() < usize::MAX / 64,
            decreases walk.steps_left(),
        {
            match walk.next() {
                Some(n) => {
                    if !(n.start_byte <= n.end_byte && n.end_byte <= bytes.len() && n.row
                        < usize::MAX) {
                        return Err(SyntaxError::NodeOutOfRange);
                    }
                    nodes.push(n);
                },
                None => {
                    break ;
                },
            }
        }
        if !walk.finished() {
            return Err(SyntaxError::TreeTooLarge);
        }
        Ok(SyntaxTree { file, source: bytes, nodes })
    }

    /// The node stream, in depth-first order.
    pub fn iter(&self) -> (r: &Vec<SyntaxNode>)
        ensures
            r@ == self.stream(),
    {
        &self.nodes
    }

    /// The bytes that were parsed.
    pub fn source_bytes(&self) -> (r: &Vec<u8>)
        ensures
            r@ == self.bytes(),
    {
        &self.source
    }

    /// The text of `node`.
    pub fn source(&self, node: &SyntaxNode) -> (r: String)
        requires
            node_in(*node, self.bytes().len()),
        ensures
            r@ == utf8_text(self.bytes().subrange(node.start_byte as int, node.end_byte as int)),
    {
        text_of(slice_of(self.source.as_slice(), node.start_byte, node.end_byte))
    }
}

/// The bytes of `b` from `start` up to `end`.
pub fn slice_of(b: &[u8], start: usize, end: usize) -> (r: &[u8])
    requires
        start <= end <= b@.len(),
    ensures
        r@ == b@.subrange(start as int, end as int),
{
    let (_, tail) = b.split_at(start);
    let (mid, _) = tail.split_at(end - start);
    proof {
        assert(mid@ =~= b@.subrange(start as int, end as int));
    }
    mid
}

/// Where the walk stands relative to the cursor's node.
#[derive(PartialEq, Eq, Structural, Clone, Copy)]
enum Direction {
    /// The cursor's node has not been handed out yet.
    Fresh,
    /// The cursor's node was handed out; its children come next.
    Down,
    /// The cursor came back up; the node's children are done.
    Up,
}

/// A depth-first walk over a tree-sitter tree, each node handed out before its
/// descendants. Each cursor move spends one step of a budget fixed at the
/// start; the walk stops when the budget is spent.
pub struct NodeIterator<'a> {
    cursor: tree_sitter::TreeCursor<'a>,
    dir: Direction,
    steps: usize,
    done: bool,
}

impl<'a> NodeIterator<'a> {
    /// The steps that remain.
    pub closed spec fn steps_left(&self) -> nat {
        self.steps as nat
    }

    fn new(tree: &'a tree_sitter::Tree, budget: usize) -> (r: Self)
        ensures
            r.steps_left() == budget,
    {
        NodeIterator { cursor: tree.walk(), dir: Direction::Fresh, steps: budget, done: false }
    }

    /// Whether the walk came back up past the root.
    pub fn finished(&self) -> bool {
        self.done
    }

    /// The next node of the walk; nothing once the walk is over or its budget
    /// is spent.
    pub fn next(&mut self) -> (r: Option<SyntaxNode>)
        ensures
            final(self).steps_left() <= old(self).steps_left(),
            r is Some ==> final(self).steps_left() < old(self).steps_left(),
    {
        loop
            invariant
                self.steps_left() <= old(self).steps_left(),
            decreases self.steps,
        {
            if self.done || self.steps == 0 {
                return None;
            }
            self.steps = self.steps - 1;
            if self.dir == Direction::Fresh {
                self.dir = Direction::Down;
                let n = self.cursor.node();
                return Some(
                    SyntaxNode {
                        kind: SyntaxKind::from_name(n.kind()),
                        start_byte: n.start_byte(),
                        end_byte: n.end_byte(),
                        row: start_row(&n),
                    },
                );
            } else if (self.dir == Direction::Down && self.cursor.goto_first_child())
                || self.cursor.goto_next_sibling() {
                self.dir = Direction::Fresh;
            } else {
                self.dir = Direction::Up;
                if !self.cursor.goto_parent() {
                    self.done = true;
                    return None;
                }
            }
        }
    }
}

} // verus!
