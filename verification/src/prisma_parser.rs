//! Reading a schema from its definition: the syntax tree of the text, laid
//! out node by node, is walked once from front to back.

use crate::data::{
    column_views, map_table_name, last_primary, Column, ColumnType, ColumnTypeView, ColumnView,
    Model, ModelView, Relation, RelationView, Schema, SchemaView, Unique, UniqueView,
};
use crate::text::{first_hit, first_hit_from, str_eq, texts};
use vstd::prelude::*;
use vstd::utf8::{
    decode_utf8, encode_utf8, encode_utf8_decode_utf8, encode_utf8_valid_utf8, is_char_boundary,
    is_char_boundary_iff_not_is_continuation_byte, is_char_boundary_start_end_of_seq,
    valid_utf8_split,
};

verus! {

/// A node of a syntax tree: its kind, and where its text starts and ends in
/// the source, counted in bytes.
#[derive(Debug)]
pub struct SyntaxNode {
    pub kind: String,
    pub start: usize,
    pub end: usize,
}

pub struct SyntaxNodeView {
    pub kind: Seq<char>,
    pub start: int,
    pub end: int,
}

impl View for SyntaxNode {
    type V = SyntaxNodeView;

    open spec fn view(&self) -> SyntaxNodeView {
        SyntaxNodeView { kind: self.kind@, start: self.start as int, end: self.end as int }
    }
}

/// The views of a list of nodes.
pub open spec fn node_views(nodes: Seq<SyntaxNode>) -> Seq<SyntaxNodeView> {
    Seq::new(nodes.len(), |i: int| nodes[i]@)
}

/// The nodes of the syntax tree that the grammar of schema definitions gives
/// for a text: the root first, and each node before its children, which
/// follow it from left to right. There is none where no tree comes of the
/// text.
pub uninterp spec fn syntax_tree(source: Seq<char>) -> Option<Seq<SyntaxNodeView>>;

/// `Parser::parse`, with the grammar of `tree_sitter_prisma_io`, gives the
/// syntax tree of a text, and `TreeCursor::goto_descendant` reaches its
/// nodes by their number, counted from the root with each node before its
/// children. Of each node `Node::kind`, `Node::start_byte` and
/// `Node::end_byte` are kept. No tree comes where `Parser::set_language`
/// refuses the grammar or `Parser::parse` gives none; whether one comes
/// rests on the text and the grammar alone.
#[verifier::external_body]
fn syntax_nodes(source: &str) -> (nodes: Option<Vec<SyntaxNode>>)
    ensures
        match nodes {
            Some(list) => syntax_tree(source@) == Some(node_views(list@)),
            None => syntax_tree(source@) is None,
        },
{
    let mut parser = tree_sitter::Parser::new();
    parser.set_language(&tree_sitter_prisma_io::LANGUAGE.into()).ok()?;
    let tree = parser.parse(source, None)?;
    let mut cursor = tree.walk();
    let node_at = |i: usize| {
        cursor.goto_descendant(i);
        cursor.node()
    };
    let nodes = (0..tree.root_node().descendant_count()).map(node_at);
    let kept = nodes.map(|n| SyntaxNode { kind: n.kind().to_string(), start: n.start_byte(), end: n.end_byte() });
    Some(kept.collect())
}

/// The text that `source` holds from byte `start` up to byte `end`, where
/// both lie within it and on the boundaries of characters.
pub open spec fn text_between(source: Seq<char>, start: int, end: int) -> Option<Seq<char>> {
    let bytes = encode_utf8(source);
    if 0 <= start <= end <= bytes.len() && is_char_boundary(bytes, start) && is_char_boundary(
        bytes,
        end,
    ) {
        Some(decode_utf8(bytes.subrange(start, end)))
    } else {
        None
    }
}

/// The text that `source` holds from byte `start` up to byte `end`.
fn slice_text(source: &str, start: usize, end: usize) -> (text: Option<String>)
    ensures
        match text {
            Some(t) => text_between(source@, start as int, end as int) == Some(t@),
            None => text_between(source@, start as int, end as int) is None,
        },
{
    let ghost bytes = encode_utf8(source@);
    proof {
        encode_utf8_valid_utf8(source@);
        assert(is_char_boundary(bytes, end as int) ==> end <= bytes.len());
    }
    if start <= end && source.is_char_boundary(start) && source.is_char_boundary(end) {
        let (head, _) = source.split_at(end);
        proof {
            let front = bytes.subrange(0, end as int);
            valid_utf8_split(bytes, end as int);
            assert(encode_utf8(head@) == front);
            if start < end {
                is_char_boundary_iff_not_is_continuation_byte(bytes, start as int);
                is_char_boundary_iff_not_is_continuation_byte(front, start as int);
                assert(front[start as int] == bytes[start as int]);
            } else {
                is_char_boundary_start_end_of_seq(front);
            }
            assert(is_char_boundary(front, start as int));
        }
        let (_, part) = head.split_at(start);
        proof {
            let front = bytes.subrange(0, end as int);
            assert(front.subrange(start as int, front.len() as int) =~= bytes.subrange(
                start as int,
                end as int,
            ));
            assert(encode_utf8(part@) == bytes.subrange(start as int, end as int));
            encode_utf8_decode_utf8(part@);
        }
        Some(String::from_str(part))
    } else {
        None
    }
}

/// The nodes of a tree and the text that they were read from.
pub struct Tokens {
    pub nodes: Seq<SyntaxNodeView>,
    pub source: Seq<char>,
}

/// What a walk over the nodes comes to: a value and the position behind
/// what was read, or the reason why it failed.
pub type Step<T> = Result<(T, int), Seq<char>>;

/// The arguments of a call, each a name with a list of names, in the order
/// in which they were written.
pub type ArgumentViews = Seq<(Seq<char>, Seq<Seq<char>>)>;

/// For each argument, whether it is named `name`.
pub open spec fn argument_hits(args: ArgumentViews, name: Seq<char>) -> Seq<bool> {
    Seq::new(args.len(), |i: int| args[args.len() - 1 - i].0 == name)
}

/// The list of the last argument named `name`, or the empty list where no
/// argument has the name.
pub open spec fn argument(args: ArgumentViews, name: Seq<char>) -> Seq<Seq<char>> {
    match first_hit(argument_hits(args, name)) {
        Some(i) => args[args.len() - 1 - i].1,
        None => Seq::empty(),
    }
}

/// For each column, whether it is flagged as unique.
pub open spec fn unique_hits(columns: Seq<ColumnView>) -> Seq<bool> {
    Seq::new(columns.len(), |i: int| columns[i].unique)
}

/// The table named `name` with the columns `columns`. Where no constraint
/// over the table is given, the first column that is flagged as unique makes
/// one.
pub open spec fn make_model(
    name: Seq<char>,
    columns: Seq<ColumnView>,
    unique: Option<UniqueView>,
) -> ModelView {
    ModelView {
        name,
        columns,
        unique: match unique {
            Some(given) => Some(given),
            None => match first_hit(unique_hits(columns)) {
                Some(i) => Some(UniqueView { column_names: seq![columns[i].name] }),
                None => None,
            },
        },
        map_table: map_table_name(name),
        primary_key_index: last_primary(columns),
    }
}

impl SchemaView {
    /// The schema with `model` under its name: in the place of the table
    /// that had the name, or else behind the others.
    pub open spec fn with(self, model: ModelView) -> SchemaView {
        match self.index_of(model.name) {
            Some(i) => SchemaView { models: self.models.update(i, model) },
            None => SchemaView { models: self.models.push(model) },
        }
    }
}

impl Tokens {
    /// The kind of the node at `idx`, or the empty text behind the last
    /// node.
    pub open spec fn kind_at(self, idx: int) -> Seq<char> {
        if 0 <= idx < self.nodes.len() {
            self.nodes[idx].kind
        } else {
            Seq::empty()
        }
    }

    /// Whether the node at `idx` is of the kind `kind`.
    pub open spec fn is_at(self, idx: int, kind: Seq<char>) -> bool {
        0 <= idx < self.nodes.len() && self.nodes[idx].kind == kind
    }

    /// What is said where a node of the kind `kind` was expected at `idx`.
    pub open spec fn mismatch(self, idx: int, kind: Seq<char>) -> Seq<char> {
        "Expected "@ + kind + ", got "@ + self.kind_at(idx)
    }

    /// The position behind the node at `idx`, which is of the kind `kind`.
    pub open spec fn consume(self, idx: int, kind: Seq<char>) -> Result<int, Seq<char>> {
        if self.is_at(idx, kind) {
            Ok(idx + 1)
        } else {
            Err(self.mismatch(idx, kind))
        }
    }

    /// The position behind the node at `idx` if it is of the kind `kind`,
    /// and else `idx`.
    pub open spec fn skip_if(self, idx: int, kind: Seq<char>) -> int {
        if self.is_at(idx, kind) {
            idx + 1
        } else {
            idx
        }
    }

    /// The position behind the nodes of the kinds `kinds`, one after the
    /// other, from `idx`.
    pub open spec fn consume_all(self, idx: int, kinds: Seq<Seq<char>>) -> Result<int, Seq<char>>
        decreases kinds.len(),
    {
        if kinds.len() == 0 {
            Ok(idx)
        } else {
            match self.consume(idx, kinds.first()) {
                Ok(next) => self.consume_all(next, kinds.drop_first()),
                Err(error) => Err(error),
            }
        }
    }

    /// Whether nodes of the kinds `kinds` follow one another from `idx`,
    /// and the position behind those of them that do.
    pub open spec fn try_consume_all(self, idx: int, kinds: Seq<Seq<char>>) -> (bool, int)
        decreases kinds.len(),
    {
        if kinds.len() == 0 {
            (true, idx)
        } else if self.is_at(idx, kinds.first()) {
            self.try_consume_all(idx + 1, kinds.drop_first())
        } else {
            (false, idx)
        }
    }

    /// The position `next`, which lies behind `idx`.
    pub open spec fn onward(self, idx: int, next: int) -> int {
        if idx < next <= self.nodes.len() {
            next
        } else {
            self.nodes.len() as int
        }
    }

    /// The text of the identifier at `idx`.
    pub open spec fn identifier(self, idx: int) -> Step<Seq<char>> {
        if !self.is_at(idx, "identifier"@) {
            Err(self.mismatch(idx, "identifier"@))
        } else {
            match text_between(self.source, self.nodes[idx].start, self.nodes[idx].end) {
                Some(text) => Ok((text, idx + 1)),
                None => Err("Unreadable identifier"@),
            }
        }
    }

    /// The names of an array from `idx`, which lies behind its opening
    /// bracket, up to its closing bracket, after the names `names`.
    pub open spec fn array_items(self, idx: int, names: Seq<Seq<char>>) -> Step<Seq<Seq<char>>>
        decreases self.nodes.len() - idx,
    {
        if self.is_at(idx, "]"@) {
            Ok((names, idx + 1))
        } else {
            match self.identifier(idx) {
                Err(error) => Err(error),
                Ok((name, next)) => self.array_items(
                    self.onward(idx, self.skip_if(next, ","@)),
                    names.push(name),
                ),
            }
        }
    }

    /// The names of the array at `idx`.
    pub open spec fn array(self, idx: int) -> Step<Seq<Seq<char>>> {
        match self.consume_all(idx, seq!["array"@, "["@]) {
            Err(error) => Err(error),
            Ok(next) => self.array_items(next, Seq::empty()),
        }
    }

    /// The arguments of a call from `idx`, which lies behind its opening
    /// parenthesis and `depth` parentheses deep, up to the parenthesis that
    /// closes the call, after the arguments `args`.
    pub open spec fn argument_items(self, idx: int, depth: nat, args: ArgumentViews) -> Step<
        ArgumentViews,
    >
        decreases self.nodes.len() - idx,
    {
        if depth == 0 {
            Ok((args, idx))
        } else if idx < 0 || idx >= self.nodes.len() {
            Err(self.mismatch(idx, ")"@))
        } else if self.is_at(idx, "type_expression"@) {
            match self.identifier(idx + 1) {
                Err(error) => Err(error),
                Ok((key, next)) => match self.consume(next, ":"@) {
                    Err(error) => Err(error),
                    Ok(next) => if self.is_at(next, "array"@) {
                        match self.array(next) {
                            Err(error) => Err(error),
                            Ok((names, next)) => self.argument_items(
                                self.onward(idx, next),
                                depth,
                                args.push((key, names)),
                            ),
                        }
                    } else {
                        self.argument_items(self.onward(idx, next), depth, args)
                    },
                },
            }
        } else if self.is_at(idx, "("@) {
            self.argument_items(idx + 1, depth + 1, args)
        } else if self.is_at(idx, ")"@) {
            self.argument_items(idx + 1, (depth - 1) as nat, args)
        } else {
            self.argument_items(idx + 1, depth, args)
        }
    }

    /// The arguments of the call at `idx`: none where no arguments stand
    /// there.
    pub open spec fn arguments(self, idx: int) -> Step<ArgumentViews> {
        if !self.is_at(idx, "arguments"@) {
            Ok((Seq::empty(), idx))
        } else {
            match self.consume(idx + 1, "("@) {
                Err(error) => Err(error),
                Ok(next) => self.argument_items(next, 1, Seq::empty()),
            }
        }
    }

    /// The relation whose arguments stand at `idx`.
    pub open spec fn relation(self, idx: int) -> Step<RelationView> {
        match self.arguments(idx) {
            Err(error) => Err(error),
            Ok((args, next)) => Ok(
                (
                    RelationView {
                        fields: argument(args, "fields"@),
                        references: argument(args, "references"@),
                    },
                    next,
                ),
            ),
        }
    }

    /// The uniqueness constraint whose arguments stand at `idx`.
    pub open spec fn unique(self, idx: int) -> Step<UniqueView> {
        match self.arguments(idx) {
            Err(error) => Err(error),
            Ok((args, next)) => Ok((UniqueView { column_names: argument(args, "fields"@) }, next)),
        }
    }

    /// The type of a column at `idx`.
    pub open spec fn column_type(self, idx: int) -> Step<ColumnTypeView> {
        match self.consume(idx, "column_type"@) {
            Err(error) => Err(error),
            Ok(next) => match self.identifier(next) {
                Err(error) => Err(error),
                Ok((name, next)) => if self.is_at(next, "array"@) {
                    match self.consume_all(next, seq!["array"@, "["@, "]"@]) {
                        Err(error) => Err(error),
                        Ok(next) => Ok(
                            (ColumnTypeView { name, collection: true, nullable: false }, next),
                        ),
                    }
                } else if self.is_at(next, "maybe"@) {
                    Ok((ColumnTypeView { name, collection: false, nullable: true }, next + 1))
                } else {
                    Ok((ColumnTypeView { name, collection: false, nullable: false }, next))
                },
            },
        }
    }

    /// What the first attribute of a column says, from `idx`, which lies
    /// behind the sign of the attribute.
    pub open spec fn attribute(self, idx: int, name: Seq<char>, ty: ColumnTypeView) -> Step<
        ColumnView,
    > {
        let plain = ColumnView { name, ty, relation: None, unique: false, primary_key: false };
        if self.is_at(idx, "call_expression"@) {
            match self.identifier(idx + 1) {
                Err(error) => Err(error),
                Ok((called, next)) => if called == "relation"@ {
                    match self.relation(next) {
                        Err(error) => Err(error),
                        Ok((relation, next)) => Ok(
                            (ColumnView { relation: Some(relation), ..plain }, next),
                        ),
                    }
                } else {
                    Ok((plain, next))
                },
            }
        } else if self.is_at(idx, "identifier"@) {
            match self.identifier(idx) {
                Err(error) => Err(error),
                Ok((flag, next)) => Ok(
                    (
                        ColumnView {
                            unique: flag == "unique"@,
                            primary_key: flag == "id"@,
                            ..plain
                        },
                        next,
                    ),
                ),
            }
        } else {
            Ok((plain, idx))
        }
    }

    /// The column at `idx`.
    pub open spec fn column(self, idx: int) -> Step<ColumnView> {
        match self.consume(idx, "column_declaration"@) {
            Err(error) => Err(error),
            Ok(next) => match self.identifier(next) {
                Err(error) => Err(error),
                Ok((name, next)) => match self.column_type(next) {
                    Err(error) => Err(error),
                    Ok((ty, next)) => {
                        let (signed, next) = self.try_consume_all(next, seq!["attribute"@, "@"@]);
                        if signed {
                            self.attribute(next, name, ty)
                        } else {
                            Ok(
                                (
                                    ColumnView {
                                        name,
                                        ty,
                                        relation: None,
                                        unique: false,
                                        primary_key: false,
                                    },
                                    next,
                                ),
                            )
                        }
                    },
                },
            }
        }
    }

    /// What an attribute of a table says, from `idx`, which is the node of
    /// the attribute: a uniqueness constraint, or nothing.
    pub open spec fn block_attribute(self, idx: int) -> Step<Option<UniqueView>> {
        let (signed, next) = self.try_consume_all(idx + 1, seq!["@@"@, "call_expression"@]);
        if signed {
            match self.identifier(next) {
                Err(error) => Err(error),
                Ok((called, next)) => if called == "unique"@ {
                    match self.unique(next) {
                        Err(error) => Err(error),
                        Ok((unique, next)) => Ok((Some(unique), next)),
                    }
                } else {
                    Ok((None, next))
                },
            }
        } else {
            Ok((None, next))
        }
    }

    /// The columns and the constraint of a table from `idx`, which lies
    /// behind its opening brace, up to its closing brace, after the columns
    /// `columns` and the constraint `unique`.
    pub open spec fn block_items(
        self,
        idx: int,
        columns: Seq<ColumnView>,
        unique: Option<UniqueView>,
    ) -> Step<(Seq<ColumnView>, Option<UniqueView>)>
        decreases self.nodes.len() - idx,
    {
        if idx < 0 || idx >= self.nodes.len() {
            Err(self.mismatch(idx, "}"@))
        } else if self.is_at(idx, "}"@) {
            Ok(((columns, unique), idx))
        } else if self.is_at(idx, "column_declaration"@) {
            match self.column(idx) {
                Err(error) => Err(error),
                Ok((column, next)) => self.block_items(
                    self.onward(idx, next),
                    columns.push(column),
                    unique,
                ),
            }
        } else if self.is_at(idx, "block_attribute_declaration"@) {
            match self.block_attribute(idx) {
                Err(error) => Err(error),
                Ok((found, next)) => self.block_items(
                    self.onward(idx, next),
                    columns,
                    match found {
                        Some(given) => Some(given),
                        None => unique,
                    },
                ),
            }
        } else {
            self.block_items(idx + 1, columns, unique)
        }
    }

    /// The table at `idx`.
    pub open spec fn model(self, idx: int) -> Step<ModelView> {
        match self.consume_all(idx, seq!["model_declaration"@, "model"@]) {
            Err(error) => Err(error),
            Ok(next) => match self.identifier(next) {
                Err(error) => Err(error),
                Ok((name, next)) => if self.is_at(next, "statement_block"@) {
                    match self.consume(next + 1, "{"@) {
                        Err(error) => Err(error),
                        Ok(next) => match self.block_items(next, Seq::empty(), None) {
                            Err(error) => Err(error),
                            Ok(((columns, unique), next)) => Ok(
                                (make_model(name, columns, unique), next),
                            ),
                        },
                    }
                } else {
                    Ok((make_model(name, Seq::empty(), None), next))
                },
            },
        }
    }

    /// The schema of the tables from `idx` on, after the tables of
    /// `schema`.
    pub open spec fn models(self, idx: int, schema: SchemaView) -> Result<SchemaView, Seq<char>>
        decreases self.nodes.len() - idx,
    {
        if idx < 0 || idx >= self.nodes.len() {
            Ok(schema)
        } else if self.is_at(idx, "model_declaration"@) {
            match self.model(idx) {
                Err(error) => Err(error),
                Ok((model, next)) => self.models(self.onward(idx, next), schema.with(model)),
            }
        } else {
            self.models(idx + 1, schema)
        }
    }

    /// The schema that the nodes define: the tables of the program, each
    /// under its name.
    pub open spec fn schema(self) -> Result<SchemaView, Seq<char>> {
        match self.consume(0, "program"@) {
            Err(error) => Err(error),
            Ok(next) => self.models(next, SchemaView { models: Seq::empty() }),
        }
    }
}

/// The arguments of a call.
struct Arguments {
    items: Vec<(String, Vec<String>)>,
}

impl Arguments {
    spec fn view(&self) -> ArgumentViews {
        Seq::new(self.items@.len(), |i: int| (self.items@[i].0@, texts(self.items@[i].1@)))
    }

    fn new() -> (args: Arguments)
        ensures
            args.view() == Seq::<(Seq<char>, Seq<Seq<char>>)>::empty(),
    {
        let args = Arguments { items: Vec::new() };
        assert(args.view() =~= Seq::<(Seq<char>, Seq<Seq<char>>)>::empty());
        args
    }

    fn push(&mut self, name: String, list: Vec<String>)
        ensures
            final(self).view() == old(self).view().push((name@, texts(list@))),
    {
        self.items.push((name, list));
        assert(self.view() =~= old(self).view().push((name@, texts(list@))));
    }

    /// The list of the last argument named `name`.
    fn get(&self, name: &str) -> (list: Vec<String>)
        ensures
            texts(list@) == argument(self.view(), name@),
    {
        let ghost hits = argument_hits(self.view(), name@);
        let mut i: usize = self.items.len();
        while i > 0
            invariant
                i <= self.items.len(),
                hits == argument_hits(self.view(), name@),
                first_hit(hits) == first_hit_from(hits, self.items.len() - i),
            decreases i,
        {
            i = i - 1;
            if str_eq(self.items[i].0.as_str(), name) {
                let list = copy_texts(&self.items[i].1);
                assert(hits[self.items.len() - 1 - i]);
                return list;
            }
            assert(!hits[self.items.len() - 1 - i]);
        }
        let list: Vec<String> = Vec::new();
        assert(texts(list@) =~= Seq::<Seq<char>>::empty());
        list
    }
}

/// A copy of a list of strings.
fn copy_texts(list: &Vec<String>) -> (copy: Vec<String>)
    ensures
        texts(copy@) == texts(list@),
{
    let mut copy: Vec<String> = Vec::new();
    let mut i: usize = 0;
    while i < list.len()
        invariant
            i <= list.len(),
            texts(copy@) == texts(list@).take(i as int),
        decreases list.len() - i,
    {
        let ghost before = texts(copy@);
        let item = list[i].clone();
        copy.push(item);
        assert(texts(copy@) =~= before.push(item@));
        assert(texts(copy@) =~= texts(list@).take(i as int + 1));
        i = i + 1;
    }
    assert(texts(list@).take(list.len() as int) =~= texts(list@));
    copy
}

/// A position in the nodes of a tree.
struct Cursor<'a> {
    source: &'a str,
    nodes: Vec<SyntaxNode>,
    idx: usize,
}

impl<'a> Cursor<'a> {
    spec fn tokens(&self) -> Tokens {
        Tokens { nodes: node_views(self.nodes@), source: self.source@ }
    }

    spec fn wf(&self) -> bool {
        self.idx <= self.nodes.len()
    }

    /// The cursor moves on and reads the same nodes.
    spec fn follows(&self, before: &Cursor<'a>) -> bool {
        &&& self.tokens() == before.tokens()
        &&& self.wf()
        &&& before.idx <= self.idx
    }

    fn new(nodes: Vec<SyntaxNode>, source: &'a str) -> (cursor: Cursor<'a>)
        ensures
            cursor.wf(),
            cursor.idx == 0,
            cursor.tokens() == (Tokens { nodes: node_views(nodes@), source: source@ }),
    {
        Cursor { source, nodes, idx: 0 }
    }

    fn eos(&self) -> (end: bool)
        ensures
            end == (self.idx >= self.nodes.len()),
    {
        self.idx >= self.nodes.len()
    }

    /// Whether the node under the cursor is of the kind `kind`.
    fn is(&self, kind: &str) -> (yes: bool)
        ensures
            yes == self.tokens().is_at(self.idx as int, kind@),
    {
        if self.idx < self.nodes.len() {
            str_eq(self.nodes[self.idx].kind.as_str(), kind)
        } else {
            false
        }
    }

    /// The kind of the node under the cursor.
    fn current(&self) -> (kind: &str)
        ensures
            kind@ == self.tokens().kind_at(self.idx as int),
    {
        if self.idx < self.nodes.len() {
            self.nodes[self.idx].kind.as_str()
        } else {
            proof {
                reveal_strlit("");
                assert(""@ =~= Seq::<char>::empty());
            }
            ""
        }
    }

    fn skip(&mut self)
        requires
            old(self).wf(),
            old(self).idx < old(self).nodes.len(),
        ensures
            final(self).follows(old(self)),
            final(self).idx == old(self).idx + 1,
    {
        self.idx = self.idx + 1;
    }

    fn mismatch(&self, kind: &str) -> (text: String)
        ensures
            text@ == self.tokens().mismatch(self.idx as int, kind@),
    {
        let mut text = String::from_str("Expected ");
        text.append(kind);
        text.append(", got ");
        text.append(self.current());
        text
    }

    fn consume(&mut self, kind: &str) -> (result: Result<(), String>)
        requires
            old(self).wf(),
        ensures
            final(self).follows(old(self)),
            match result {
                Ok(()) => old(self).tokens().consume(old(self).idx as int, kind@) == Ok::<
                    int,
                    Seq<char>,
                >(final(self).idx as int),
                Err(error) => old(self).tokens().consume(old(self).idx as int, kind@) == Err::<
                    int,
                    Seq<char>,
                >(error@) && final(self).idx == old(self).idx,
            },
    {
        if self.is(kind) {
            self.idx = self.idx + 1;
            Ok(())
        } else {
            Err(self.mismatch(kind))
        }
    }

    fn consume_all(&mut self, kinds: &Vec<&str>) -> (result: Result<(), String>)
        requires
            old(self).wf(),
        ensures
            final(self).follows(old(self)),
            match result {
                Ok(()) => old(self).tokens().consume_all(old(self).idx as int, kind_texts(kinds@))
                    == Ok::<int, Seq<char>>(final(self).idx as int),
                Err(error) => old(self).tokens().consume_all(
                    old(self).idx as int,
                    kind_texts(kinds@),
                ) == Err::<int, Seq<char>>(error@),
            },
    {
        let ghost all = kind_texts(kinds@);
        let ghost tokens = self.tokens();
        let ghost start = self.idx as int;
        let mut i: usize = 0;
        assert(all.skip(0) =~= all);
        while i < kinds.len()
            invariant
                i <= kinds.len(),
                all == kind_texts(kinds@),
                self.follows(old(self)),
                tokens == self.tokens(),
                start == old(self).idx,
                tokens.consume_all(start, all) == tokens.consume_all(self.idx as int, all.skip(i as int)),
            decreases kinds.len() - i,
        {
            proof {
                assert(all.skip(i as int).first() == kinds[i as int]@);
                assert(all.skip(i as int).drop_first() =~= all.skip(i as int + 1));
            }
            match self.consume(kinds[i]) {
                Ok(()) => {},
                Err(error) => {
                    return Err(error);
                },
            }
            i = i + 1;
        }
        Ok(())
    }

    fn try_consume(&mut self, kind: &str) -> (taken: bool)
        requires
            old(self).wf(),
        ensures
            final(self).follows(old(self)),
            taken == old(self).tokens().is_at(old(self).idx as int, kind@),
            final(self).idx == old(self).tokens().skip_if(old(self).idx as int, kind@),
    {
        match self.consume(kind) {
            Ok(_) => true,
            Err(_) => false,
        }
    }

    fn try_consume_all(&mut self, kinds: &Vec<&str>) -> (taken: bool)
        requires
            old(self).wf(),
        ensures
            final(self).follows(old(self)),
            old(self).tokens().try_consume_all(old(self).idx as int, kind_texts(kinds@)) == (
                taken,
                final(self).idx as int,
            ),
    {
        let ghost all = kind_texts(kinds@);
        let ghost tokens = self.tokens();
        let ghost start = self.idx as int;
        let mut i: usize = 0;
        assert(all.skip(0) =~= all);
        while i < kinds.len()
            invariant
                i <= kinds.len(),
                all == kind_texts(kinds@),
                self.follows(old(self)),
                tokens == self.tokens(),
                start == old(self).idx,
                tokens.try_consume_all(start, all) == tokens.try_consume_all(
                    self.idx as int,
                    all.skip(i as int),
                ),
            decreases kinds.len() - i,
        {
            proof {
                assert(all.skip(i as int).first() == kinds[i as int]@);
                assert(all.skip(i as int).drop_first() =~= all.skip(i as int + 1));
            }
            if !self.try_consume(kinds[i]) {
                return false;
            }
            i = i + 1;
        }
        true
    }
}

/// The views of a list of kinds.
pub open spec fn kind_texts(kinds: Seq<&str>) -> Seq<Seq<char>> {
    Seq::new(kinds.len(), |i: int| kinds[i]@)
}

/// The views of an optional constraint.
pub open spec fn unique_view(unique: Option<Unique>) -> Option<UniqueView> {
    match unique {
        Some(given) => Some(given@),
        None => None,
    }
}

fn handle_identifier(cursor: &mut Cursor) -> (result: Result<String, String>)
    requires
        old(cursor).wf(),
    ensures
        final(cursor).follows(old(cursor)),
        match result {
            Ok(text) => old(cursor).tokens().identifier(old(cursor).idx as int) == Ok::<
                (Seq<char>, int),
                Seq<char>,
            >((text@, final(cursor).idx as int)),
            Err(error) => old(cursor).tokens().identifier(old(cursor).idx as int) == Err::<
                (Seq<char>, int),
                Seq<char>,
            >(error@),
        },
{
    if !cursor.is("identifier") {
        return Err(cursor.mismatch("identifier"));
    }
    let start = cursor.nodes[cursor.idx].start;
    let end = cursor.nodes[cursor.idx].end;
    match slice_text(cursor.source, start, end) {
        Some(text) => {
            cursor.idx = cursor.idx + 1;
            Ok(text)
        },
        None => Err(String::from_str("Unreadable identifier")),
    }
}

fn handle_array(cursor: &mut Cursor) -> (result: Result<Vec<String>, String>)
    requires
        old(cursor).wf(),
    ensures
        final(cursor).follows(old(cursor)),
        match result {
            Ok(names) => old(cursor).tokens().array(old(cursor).idx as int) == Ok::<
                (Seq<Seq<char>>, int),
                Seq<char>,
            >((texts(names@), final(cursor).idx as int)),
            Err(error) => old(cursor).tokens().array(old(cursor).idx as int) == Err::<
                (Seq<Seq<char>>, int),
                Seq<char>,
            >(error@),
        },
{
    let ghost tokens = cursor.tokens();
    let opening = vec!["array", "["];
    assert(kind_texts(opening@) =~= seq!["array"@, "["@]);
    match cursor.consume_all(&opening) {
        Ok(()) => {},
        Err(error) => {
            return Err(error);
        },
    }
    let ghost whole = tokens.array_items(cursor.idx as int, Seq::empty());
    proof {
        reveal_with_fuel(Tokens::consume_all, 3);
    }
    let mut names: Vec<String> = Vec::new();
    assert(texts(names@) =~= Seq::<Seq<char>>::empty());
    while !cursor.is("]")
        invariant
            cursor.follows(old(cursor)),
            tokens == cursor.tokens(),
            tokens.array(old(cursor).idx as int) == whole,
            whole == tokens.array_items(cursor.idx as int, texts(names@)),
        decreases cursor.nodes.len() - cursor.idx,
    {
        let ghost before = texts(names@);
        let name = match handle_identifier(cursor) {
            Ok(name) => name,
            Err(error) => {
                return Err(error);
            },
        };
        cursor.try_consume(",");
        names.push(name);
        assert(texts(names@) =~= before.push(name@));
    }
    cursor.idx = cursor.idx + 1;
    Ok(names)
}

fn handle_args(cursor: &mut Cursor) -> (result: Result<Arguments, String>)
    requires
        old(cursor).wf(),
    ensures
        final(cursor).follows(old(cursor)),
        match result {
            Ok(args) => old(cursor).tokens().arguments(old(cursor).idx as int) == Ok::<
                (ArgumentViews, int),
                Seq<char>,
            >((args.view(), final(cursor).idx as int)),
            Err(error) => old(cursor).tokens().arguments(old(cursor).idx as int) == Err::<
                (ArgumentViews, int),
                Seq<char>,
            >(error@),
        },
{
    let ghost tokens = cursor.tokens();
    let mut args = Arguments::new();
    if !cursor.is("arguments") {
        return Ok(args);
    }
    cursor.idx = cursor.idx + 1;
    match cursor.consume("(") {
        Ok(()) => {},
        Err(error) => {
            return Err(error);
        },
    }
    let ghost whole = tokens.argument_items(cursor.idx as int, 1, Seq::empty());
    let mut paren_count: usize = 1;
    while paren_count > 0
        invariant
            cursor.follows(old(cursor)),
            tokens == cursor.tokens(),
            paren_count <= cursor.idx,
            tokens.arguments(old(cursor).idx as int) == whole,
            whole == tokens.argument_items(cursor.idx as int, paren_count as nat, args.view()),
        decreases cursor.nodes.len() - cursor.idx,
    {
        if cursor.eos() {
            return Err(cursor.mismatch(")"));
        }
        let ghost start = cursor.idx as int;
        if cursor.try_consume("type_expression") {
            let key = match handle_identifier(cursor) {
                Ok(key) => key,
                Err(error) => {
                    return Err(error);
                },
            };
            match cursor.consume(":") {
                Ok(()) => {},
                Err(error) => {
                    return Err(error);
                },
            }
            if cursor.is("array") {
                let names = match handle_array(cursor) {
                    Ok(names) => names,
                    Err(error) => {
                        return Err(error);
                    },
                };
                args.push(key, names);
            }
        } else if cursor.try_consume("(") {
            paren_count = paren_count + 1;
        } else if cursor.try_consume(")") {
            paren_count = paren_count - 1;
        } else {
            cursor.skip();
        }
    }
    Ok(args)
}

fn handle_relation(cursor: &mut Cursor) -> (result: Result<Relation, String>)
    requires
        old(cursor).wf(),
    ensures
        final(cursor).follows(old(cursor)),
        match result {
            Ok(relation) => old(cursor).tokens().relation(old(cursor).idx as int) == Ok::<
                (RelationView, int),
                Seq<char>,
            >((relation@, final(cursor).idx as int)),
            Err(error) => old(cursor).tokens().relation(old(cursor).idx as int) == Err::<
                (RelationView, int),
                Seq<char>,
            >(error@),
        },
{
    match handle_args(cursor) {
        Ok(args) => {
            let fields = args.get("fields");
            let references = args.get("references");
            Ok(Relation { fields, references })
        },
        Err(error) => Err(error),
    }
}

fn handle_unique(cursor: &mut Cursor) -> (result: Result<Unique, String>)
    requires
        old(cursor).wf(),
    ensures
        final(cursor).follows(old(cursor)),
        match result {
            Ok(unique) => old(cursor).tokens().unique(old(cursor).idx as int) == Ok::<
                (UniqueView, int),
                Seq<char>,
            >((unique@, final(cursor).idx as int)),
            Err(error) => old(cursor).tokens().unique(old(cursor).idx as int) == Err::<
                (UniqueView, int),
                Seq<char>,
            >(error@),
        },
{
    match handle_args(cursor) {
        Ok(args) => {
            let column_names = args.get("fields");
            Ok(Unique { column_names })
        },
        Err(error) => Err(error),
    }
}

fn handle_column_type(cursor: &mut Cursor) -> (result: Result<ColumnType, String>)
    requires
        old(cursor).wf(),
    ensures
        final(cursor).follows(old(cursor)),
        match result {
            Ok(ty) => old(cursor).tokens().column_type(old(cursor).idx as int) == Ok::<
                (ColumnTypeView, int),
                Seq<char>,
            >((ty@, final(cursor).idx as int)),
            Err(error) => old(cursor).tokens().column_type(old(cursor).idx as int) == Err::<
                (ColumnTypeView, int),
                Seq<char>,
            >(error@),
        },
{
    match cursor.consume("column_type") {
        Ok(()) => {},
        Err(error) => {
            return Err(error);
        },
    }
    let name = match handle_identifier(cursor) {
        Ok(name) => name,
        Err(error) => {
            return Err(error);
        },
    };
    let mut collection = false;
    let mut nullable = false;
    if cursor.is("array") {
        collection = true;
        let brackets = vec!["array", "[", "]"];
        assert(kind_texts(brackets@) =~= seq!["array"@, "["@, "]"@]);
        match cursor.consume_all(&brackets) {
            Ok(()) => {},
            Err(error) => {
                return Err(error);
            },
        }
    } else if cursor.is("maybe") {
        nullable = true;
        cursor.idx = cursor.idx + 1;
    }
    Ok(ColumnType { name, collection, nullable })
}

fn handle_column_decl(cursor: &mut Cursor) -> (result: Result<Column, String>)
    requires
        old(cursor).wf(),
    ensures
        final(cursor).follows(old(cursor)),
        match result {
            Ok(column) => old(cursor).tokens().column(old(cursor).idx as int) == Ok::<
                (ColumnView, int),
                Seq<char>,
            >((column@, final(cursor).idx as int)) && final(cursor).idx > old(cursor).idx,
            Err(error) => old(cursor).tokens().column(old(cursor).idx as int) == Err::<
                (ColumnView, int),
                Seq<char>,
            >(error@),
        },
{
    match cursor.consume("column_declaration") {
        Ok(()) => {},
        Err(error) => {
            return Err(error);
        },
    }
    let name = match handle_identifier(cursor) {
        Ok(name) => name,
        Err(error) => {
            return Err(error);
        },
    };
    let ty = match handle_column_type(cursor) {
        Ok(ty) => ty,
        Err(error) => {
            return Err(error);
        },
    };
    let mut relation: Option<Relation> = None;
    let mut unique = false;
    let mut primary_key = false;
    let sign = vec!["attribute", "@"];
    assert(kind_texts(sign@) =~= seq!["attribute"@, "@"@]);
    if cursor.try_consume_all(&sign) {
        if cursor.is("call_expression") {
            cursor.idx = cursor.idx + 1;
            let called = match handle_identifier(cursor) {
                Ok(called) => called,
                Err(error) => {
                    return Err(error);
                },
            };
            if str_eq(called.as_str(), "relation") {
                relation =
                match handle_relation(cursor) {
                    Ok(relation) => Some(relation),
                    Err(error) => {
                        return Err(error);
                    },
                };
            }
        } else if cursor.is("identifier") {
            let flag = match handle_identifier(cursor) {
                Ok(flag) => flag,
                Err(error) => {
                    return Err(error);
                },
            };
            unique = str_eq(flag.as_str(), "unique");
            primary_key = str_eq(flag.as_str(), "id");
        }
    }
    Ok(Column { name, ty, relation, unique, primary_key })
}

/// What an attribute of a table says.
fn handle_block_attribute(cursor: &mut Cursor) -> (result: Result<Option<Unique>, String>)
    requires
        old(cursor).wf(),
        old(cursor).idx < old(cursor).nodes.len(),
    ensures
        final(cursor).follows(old(cursor)),
        match result {
            Ok(found) => old(cursor).tokens().block_attribute(old(cursor).idx as int) == Ok::<
                (Option<UniqueView>, int),
                Seq<char>,
            >((unique_view(found), final(cursor).idx as int)) && final(cursor).idx > old(
                cursor,
            ).idx,
            Err(error) => old(cursor).tokens().block_attribute(old(cursor).idx as int) == Err::<
                (Option<UniqueView>, int),
                Seq<char>,
            >(error@),
        },
{
    cursor.skip();
    let sign = vec!["@@", "call_expression"];
    assert(kind_texts(sign@) =~= seq!["@@"@, "call_expression"@]);
    if cursor.try_consume_all(&sign) {
        let called = match handle_identifier(cursor) {
            Ok(called) => called,
            Err(error) => {
                return Err(error);
            },
        };
        if str_eq(called.as_str(), "unique") {
            return match handle_unique(cursor) {
                Ok(unique) => Ok(Some(unique)),
                Err(error) => Err(error),
            };
        }
    }
    Ok(None)
}

/// The constraint that the first column flagged as unique makes.
fn flagged_unique(columns: &Vec<Column>) -> (unique: Option<Unique>)
    ensures
        match first_hit(unique_hits(column_views(columns@))) {
            Some(i) => unique matches Some(given) && given@ == (UniqueView {
                column_names: seq![column_views(columns@)[i].name],
            }),
            None => unique is None,
        },
{
    let ghost hits = unique_hits(column_views(columns@));
    let mut i: usize = 0;
    while i < columns.len()
        invariant
            i <= columns.len(),
            hits == unique_hits(column_views(columns@)),
            first_hit(hits) == first_hit_from(hits, i as int),
        decreases columns.len() - i,
    {
        if columns[i].unique {
            let name = columns[i].name.clone();
            let column_names = vec![name];
            assert(texts(column_names@) =~= seq![column_views(columns@)[i as int].name]);
            return Some(Unique { column_names });
        }
        i = i + 1;
    }
    None
}

fn handle_model_decl(cursor: &mut Cursor) -> (result: Result<Model, String>)
    requires
        old(cursor).wf(),
    ensures
        final(cursor).follows(old(cursor)),
        match result {
            Ok(model) => old(cursor).tokens().model(old(cursor).idx as int) == Ok::<
                (ModelView, int),
                Seq<char>,
            >((model@, final(cursor).idx as int)) && final(cursor).idx > old(cursor).idx,
            Err(error) => old(cursor).tokens().model(old(cursor).idx as int) == Err::<
                (ModelView, int),
                Seq<char>,
            >(error@),
        },
{
    let ghost tokens = cursor.tokens();
    let heading = vec!["model_declaration", "model"];
    assert(kind_texts(heading@) =~= seq!["model_declaration"@, "model"@]);
    match cursor.consume_all(&heading) {
        Ok(()) => {},
        Err(error) => {
            return Err(error);
        },
    }
    proof {
        reveal_with_fuel(Tokens::consume_all, 3);
    }
    let mut columns: Vec<Column> = Vec::new();
    let mut unique: Option<Unique> = None;
    let name = match handle_identifier(cursor) {
        Ok(name) => name,
        Err(error) => {
            return Err(error);
        },
    };
    assert(column_views(columns@) =~= Seq::<ColumnView>::empty());
    if cursor.is("statement_block") {
        cursor.idx = cursor.idx + 1;
        match cursor.consume("{") {
            Ok(()) => {},
            Err(error) => {
                return Err(error);
            },
        }
        let ghost whole = tokens.block_items(cursor.idx as int, Seq::empty(), None);
        while !cursor.is("}")
            invariant
                cursor.follows(old(cursor)),
                tokens == cursor.tokens(),
                cursor.idx > old(cursor).idx,
                tokens.model(old(cursor).idx as int) == match whole {
                    Err(error) => Err::<(ModelView, int), Seq<char>>(error),
                    Ok(((columns, unique), next)) => Ok((make_model(name@, columns, unique), next)),
                },
                whole == tokens.block_items(
                    cursor.idx as int,
                    column_views(columns@),
                    unique_view(unique),
                ),
            decreases cursor.nodes.len() - cursor.idx,
        {
            if cursor.eos() {
                return Err(cursor.mismatch("}"));
            }
            if cursor.is("column_declaration") {
                let ghost before = column_views(columns@);
                let column = match handle_column_decl(cursor) {
                    Ok(column) => column,
                    Err(error) => {
                        return Err(error);
                    },
                };
                columns.push(column);
                assert(column_views(columns@) =~= before.push(column@));
            } else if cursor.is("block_attribute_declaration") {
                match handle_block_attribute(cursor) {
                    Ok(Some(found)) => {
                        unique = Some(found);
                    },
                    Ok(None) => {},
                    Err(error) => {
                        return Err(error);
                    },
                }
            } else {
                cursor.skip();
            }
        }
    }
    let ghost given = unique_view(unique);
    let ghost listed = column_views(columns@);
    assert(tokens.model(old(cursor).idx as int) == Ok::<(ModelView, int), Seq<char>>(
        (make_model(name@, listed, given), cursor.idx as int),
    ));
    if unique.is_none() {
        unique = flagged_unique(&columns);
    }
    Ok(Model::new(name, columns, unique))
}

/// The schema that the nodes of the syntax tree of `source` define: the
/// tables of the program, each under its name, a later table of a name in
/// the place of an earlier one.
pub fn parse_nodes(nodes: Vec<SyntaxNode>, source: &str) -> (result: Result<Schema, String>)
    ensures
        match result {
            Ok(schema) => (Tokens { nodes: node_views(nodes@), source: source@ }).schema() == Ok::<
                SchemaView,
                Seq<char>,
            >(schema@) && schema@.wf(),
            Err(error) => (Tokens { nodes: node_views(nodes@), source: source@ }).schema() == Err::<
                SchemaView,
                Seq<char>,
            >(error@),
        },
{
    let mut cursor = Cursor::new(nodes, source);
    let ghost tokens = cursor.tokens();
    match cursor.consume("program") {
        Ok(()) => {},
        Err(error) => {
            return Err(error);
        },
    }
    let mut schema = Schema::new();
    assert(schema@ == (SchemaView { models: Seq::empty() })) by {
        assert(schema@.models =~= Seq::<ModelView>::empty());
    }
    let ghost whole = tokens.models(cursor.idx as int, schema@);
    while !cursor.eos()
        invariant
            cursor.wf(),
            tokens == cursor.tokens(),
            schema@.wf(),
            tokens.schema() == whole,
            tokens == (Tokens { nodes: node_views(nodes@), source: source@ }),
            whole == tokens.models(cursor.idx as int, schema@),
        decreases cursor.nodes.len() - cursor.idx,
    {
        if cursor.is("model_declaration") {
            let model = match handle_model_decl(&mut cursor) {
                Ok(model) => model,
                Err(error) => {
                    return Err(error);
                },
            };
            let ghost before = schema@;
            schema.insert(model);
            assert(schema@ == before.with(model@));
        } else {
            cursor.skip();
        }
    }
    Ok(schema)
}

/// What is said where no syntax tree comes of a text.
pub open spec fn no_tree_text() -> Seq<char> {
    "The grammar of schema definitions could not be loaded"@
}

/// The schema that the text `schema_str` defines: what the walk over the
/// nodes of its syntax tree gives. Where no syntax tree comes of the text,
/// that is the error.
pub fn parse(schema_str: &str) -> (result: Result<Schema, String>)
    ensures
        match syntax_tree(schema_str@) {
            Some(nodes) => match result {
                Ok(schema) => (Tokens { nodes, source: schema_str@ }).schema() == Ok::<
                    SchemaView,
                    Seq<char>,
                >(schema@) && schema@.wf(),
                Err(error) => (Tokens { nodes, source: schema_str@ }).schema() == Err::<
                    SchemaView,
                    Seq<char>,
                >(error@),
            },
            None => result matches Err(error) && error@ == no_tree_text(),
        },
{
    match syntax_nodes(schema_str) {
        Some(nodes) => parse_nodes(nodes, schema_str),
        None => Err(String::from_str("The grammar of schema definitions could not be loaded")),
    }
}

} // verus!
