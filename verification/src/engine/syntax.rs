//! SQL statements as the engine reads them, and how they come out of the
//! parser.

use crate::number::{digits_value, digits_value_grows};
use crate::text::{
    cat2, chars_of, copy_texts, is_alphabetic, is_letter, optional, optional_word, rows_of, same,
    texts, to_uppercase, uppercase, word,
};
use sqlparser::ast::{
    BinaryOperator, Expr, Join, JoinConstraint, JoinOperator, Query, Select, SetExpr, Statement,
    TableFactor, TableWithJoins,
};
use sqlparser::dialect::GenericDialect;
use sqlparser::parser::Parser;
use sqlparser::tokenizer::Tokenizer;
use vstd::prelude::*;

verus! {

// ---------------------------------------------------------------------------
// Statements
// ---------------------------------------------------------------------------

/// The condition of a query.
pub enum Filter {
    And(Box<Filter>, Box<Filter>),
    Equal(String, String),
    /// The column, the values, and whether it says `NOT IN`.
    OneOf(String, Vec<String>, bool),
    Other,
}

/// What a join says of the columns it joins by.
pub enum JoinTerm {
    On,
    Using(Vec<String>),
    Natural,
    Unsaid,
}

/// The kinds of joins.
pub enum JoinKind {
    Inner(JoinTerm),
    LeftOuter(JoinTerm),
    RightOuter(JoinTerm),
    FullOuter(JoinTerm),
    Cross,
    LeftSemi(JoinTerm),
    RightSemi(JoinTerm),
    LeftAnti(JoinTerm),
    RightAnti(JoinTerm),
    CrossApply,
    OuterApply,
}

/// A table that is joined, or none where something else stands in its place.
pub struct JoinItem {
    pub table: Option<String>,
    pub kind: JoinKind,
}

/// A table that is read from, or none where something else stands in its place,
/// and what is joined to it.
pub struct FromItem {
    pub table: Option<String>,
    pub joins: Vec<JoinItem>,
}

/// The key of a join that the engine can make, or what keeps it from making it.
pub enum JoinKey {
    Using(Vec<String>),
    Unsaid,
    Natural,
    On,
    Cross,
    Other,
}

/// A query: what it reads from, the columns it asks for and its condition.
pub struct SelectQuery {
    pub from: Vec<FromItem>,
    pub columns: Vec<String>,
    pub filter: Option<Filter>,
}

/// A statement.
pub enum SqlStatement {
    Select(SelectQuery),
    /// A query that is no `SELECT`.
    OtherQuery,
    /// The name of the table, and the name and the type of each column.
    CreateTable(String, Vec<(String, String)>),
    /// The name of the table, and the rows where they are given as values.
    Insert(String, Option<Vec<Vec<String>>>),
    Other,
}

/// The condition of a query, with text as characters.
pub enum FilterModel {
    And(Box<FilterModel>, Box<FilterModel>),
    Equal(Seq<char>, Seq<char>),
    OneOf(Seq<char>, Seq<Seq<char>>, bool),
    Other,
}

/// What a join says of the columns it joins by, with text as characters.
pub enum TermModel {
    On,
    Using(Seq<Seq<char>>),
    Natural,
    Unsaid,
}

/// The kinds of joins, with text as characters.
pub enum KindModel {
    Inner(TermModel),
    LeftOuter(TermModel),
    RightOuter(TermModel),
    FullOuter(TermModel),
    Cross,
    LeftSemi(TermModel),
    RightSemi(TermModel),
    LeftAnti(TermModel),
    RightAnti(TermModel),
    CrossApply,
    OuterApply,
}

/// A table that is joined, with text as characters.
pub struct JoinItemModel {
    pub table: Option<Seq<char>>,
    pub kind: KindModel,
}

/// A table that is read from, with text as characters.
pub struct FromModel {
    pub table: Option<Seq<char>>,
    pub joins: Seq<JoinItemModel>,
}

/// The key of a join, with text as characters.
pub enum KeyModel {
    Using(Seq<Seq<char>>),
    Unsaid,
    Natural,
    On,
    Cross,
    Other,
}

/// A query, with text as characters.
pub struct QueryModel {
    pub from: Seq<FromModel>,
    pub columns: Seq<Seq<char>>,
    pub filter: Option<FilterModel>,
}

/// A token of a text, as it is written, and its place: the line, and the column
/// in it, both counted from one.
pub struct SqlToken {
    pub text: String,
    pub line: u64,
    pub column: u64,
}

/// A token, with text as characters.
pub struct TokenModel {
    pub text: Seq<char>,
    pub line: u64,
    pub column: u64,
}

impl View for SqlToken {
    type V = TokenModel;

    open spec fn view(&self) -> TokenModel {
        TokenModel { text: self.text@, line: self.line, column: self.column }
    }
}

/// The tokens, with text as characters.
pub open spec fn tokens_model(tokens: Seq<SqlToken>) -> Seq<TokenModel> {
    Seq::new(tokens.len(), |i: int| tokens[i]@)
}

impl TermModel {
    /// The key of an inner or outer join.
    pub open spec fn key(self) -> KeyModel {
        match self {
            TermModel::On => KeyModel::On,
            TermModel::Using(columns) => KeyModel::Using(columns),
            TermModel::Natural => KeyModel::Natural,
            TermModel::Unsaid => KeyModel::Unsaid,
        }
    }
}

impl KindModel {
    /// The key of the join. An outer join is made as an inner one.
    pub open spec fn key(self) -> KeyModel {
        match self {
            KindModel::Inner(term) => term.key(),
            KindModel::LeftOuter(term) => term.key(),
            KindModel::RightOuter(term) => term.key(),
            KindModel::FullOuter(term) => term.key(),
            KindModel::Cross => KeyModel::Cross,
            _ => KeyModel::Other,
        }
    }
}

impl QueryModel {
    /// The table that the query reads from: the first of all, if there is one.
    pub open spec fn table(self) -> Option<Option<Seq<char>>> {
        if self.from.len() > 0 {
            Some(self.from[0].table)
        } else {
            None
        }
    }

    /// The join that the query makes: the first one of the first table.
    pub open spec fn join(self) -> Option<JoinItemModel> {
        if self.from.len() > 0 && self.from[0].joins.len() > 0 {
            Some(self.from[0].joins[0])
        } else {
            None
        }
    }

    /// The table that is joined.
    pub open spec fn joined(self) -> Option<Option<Seq<char>>> {
        match self.join() {
            Some(join) => Some(join.table),
            None => None,
        }
    }

    /// The key of the join.
    pub open spec fn key(self) -> Option<KeyModel> {
        match self.join() {
            Some(join) => Some(join.kind.key()),
            None => None,
        }
    }
}

/// A statement, with text as characters.
pub enum StatementModel {
    Select(QueryModel),
    OtherQuery,
    CreateTable(Seq<char>, Seq<(Seq<char>, Seq<char>)>),
    Insert(Seq<char>, Option<Seq<Seq<Seq<char>>>>),
    Other,
}

pub open spec fn filter_model(filter: Filter) -> FilterModel
    decreases filter,
{
    match filter {
        Filter::And(a, b) => FilterModel::And(
            Box::new(filter_model(*a)),
            Box::new(filter_model(*b)),
        ),
        Filter::Equal(column, value) => FilterModel::Equal(column@, value@),
        Filter::OneOf(column, values, negated) => FilterModel::OneOf(
            column@,
            texts(values@),
            negated,
        ),
        Filter::Other => FilterModel::Other,
    }
}

pub open spec fn key_model(key: JoinKey) -> KeyModel {
    match key {
        JoinKey::Using(columns) => KeyModel::Using(texts(columns@)),
        JoinKey::Unsaid => KeyModel::Unsaid,
        JoinKey::Natural => KeyModel::Natural,
        JoinKey::On => KeyModel::On,
        JoinKey::Cross => KeyModel::Cross,
        JoinKey::Other => KeyModel::Other,
    }
}

pub open spec fn term_model(term: JoinTerm) -> TermModel {
    match term {
        JoinTerm::On => TermModel::On,
        JoinTerm::Using(columns) => TermModel::Using(texts(columns@)),
        JoinTerm::Natural => TermModel::Natural,
        JoinTerm::Unsaid => TermModel::Unsaid,
    }
}

pub open spec fn kind_model(kind: JoinKind) -> KindModel {
    match kind {
        JoinKind::Inner(term) => KindModel::Inner(term_model(term)),
        JoinKind::LeftOuter(term) => KindModel::LeftOuter(term_model(term)),
        JoinKind::RightOuter(term) => KindModel::RightOuter(term_model(term)),
        JoinKind::FullOuter(term) => KindModel::FullOuter(term_model(term)),
        JoinKind::Cross => KindModel::Cross,
        JoinKind::LeftSemi(term) => KindModel::LeftSemi(term_model(term)),
        JoinKind::RightSemi(term) => KindModel::RightSemi(term_model(term)),
        JoinKind::LeftAnti(term) => KindModel::LeftAnti(term_model(term)),
        JoinKind::RightAnti(term) => KindModel::RightAnti(term_model(term)),
        JoinKind::CrossApply => KindModel::CrossApply,
        JoinKind::OuterApply => KindModel::OuterApply,
    }
}

impl View for JoinItem {
    type V = JoinItemModel;

    open spec fn view(&self) -> JoinItemModel {
        JoinItemModel { table: optional(self.table), kind: kind_model(self.kind) }
    }
}

impl View for FromItem {
    type V = FromModel;

    open spec fn view(&self) -> FromModel {
        FromModel {
            table: optional(self.table),
            joins: Seq::new(self.joins@.len(), |i: int| self.joins@[i]@),
        }
    }
}

/// Columns with their types.
pub open spec fn columns_of(v: Seq<(String, String)>) -> Seq<(Seq<char>, Seq<char>)> {
    Seq::new(v.len(), |i: int| (v[i].0@, v[i].1@))
}

impl View for SelectQuery {
    type V = QueryModel;

    open spec fn view(&self) -> QueryModel {
        QueryModel {
            from: Seq::new(self.from@.len(), |i: int| self.from@[i]@),
            columns: texts(self.columns@),
            filter: match self.filter {
                Some(filter) => Some(filter_model(filter)),
                None => None,
            },
        }
    }
}

impl View for SqlStatement {
    type V = StatementModel;

    open spec fn view(&self) -> StatementModel {
        match self {
            SqlStatement::Select(query) => StatementModel::Select(query@),
            SqlStatement::OtherQuery => StatementModel::OtherQuery,
            SqlStatement::CreateTable(name, columns) => StatementModel::CreateTable(
                name@,
                columns_of(columns@),
            ),
            SqlStatement::Insert(name, rows) => StatementModel::Insert(
                name@,
                match rows {
                    Some(rows) => Some(rows_of(rows@)),
                    None => None,
                },
            ),
            SqlStatement::Other => StatementModel::Other,
        }
    }
}

// ---------------------------------------------------------------------------
// The parser
// ---------------------------------------------------------------------------

/// A parsed statement.
#[verifier::external_type_specification]
#[verifier::external_body]
pub struct ParsedStatement(sqlparser::ast::Statement);

/// A parsed `SELECT`.
#[verifier::external_type_specification]
#[verifier::external_body]
pub struct ParsedSelect(sqlparser::ast::Select);

/// A parsed query.
#[verifier::external_type_specification]
#[verifier::external_body]
pub struct ParsedQuery(sqlparser::ast::Query);

/// A parsed expression.
#[verifier::external_type_specification]
#[verifier::external_body]
pub struct ParsedExpression(sqlparser::ast::Expr);

/// A parsed item of a `FROM` clause.
#[verifier::external_type_specification]
#[verifier::external_body]
pub struct ParsedFrom(sqlparser::ast::TableWithJoins);

/// A parsed join.
#[verifier::external_type_specification]
#[verifier::external_body]
pub struct ParsedJoin(sqlparser::ast::Join);

/// A parsed constraint of a join.
#[verifier::external_type_specification]
#[verifier::external_body]
pub struct ParsedConstraint(sqlparser::ast::JoinConstraint);

/// What a parsed statement says, as far as the engine reads it.
pub uninterp spec fn statement_contents(statement: Statement) -> StatementModel;

/// What a parsed `SELECT` says, as far as the engine reads it.
pub uninterp spec fn select_contents(select: Select) -> QueryModel;

/// What a parsed item of a `FROM` clause says, as far as the engine reads it.
pub uninterp spec fn from_contents(item: TableWithJoins) -> FromModel;

/// What a parsed join says, as far as the engine reads it.
pub uninterp spec fn join_contents(join: Join) -> JoinItemModel;

/// What a parsed constraint of a join says, as far as the engine reads it.
pub uninterp spec fn term_contents(constraint: JoinConstraint) -> TermModel;

/// The rows of a parsed query that is a list of values.
pub uninterp spec fn values_contents(query: Query) -> Option<Seq<Seq<Seq<char>>>>;

/// What a parsed expression says as a condition.
pub uninterp spec fn condition_contents(expr: Expr) -> FilterModel;

/// The statements of a text, or the parser's complaint.
pub uninterp spec fn parsed(sql: Seq<char>) -> Result<Seq<StatementModel>, Seq<char>>;

/// The tokens of a text, if it can be cut into tokens.
pub uninterp spec fn tokens_of(sql: Seq<char>) -> Option<Seq<TokenModel>>;

/// What each of the statements says.
pub open spec fn contents_of(statements: Seq<Statement>) -> Seq<StatementModel> {
    Seq::new(statements.len(), |i: int| statement_contents(statements[i]))
}

/// `sqlparser::tokenizer::Tokenizer::tokenize_with_location` with the
/// `GenericDialect`. The tokens, white space and comments among them, and their
/// places depend on the text alone; each comes as its `Display` writes it, and an
/// error comes as none.
#[verifier::external_body]
fn tokenize_sql(sql: &str) -> (r: Option<Vec<SqlToken>>)
    ensures
        match r {
            Some(tokens) => tokens_of(sql@) == Some(tokens_model(tokens@)),
            None => tokens_of(sql@) is None,
        },
{
    match Tokenizer::new(&GenericDialect {}, sql).tokenize_with_location() {
        Ok(tokens) => Some(
            tokens.iter().map(
                |t| SqlToken {
                    text: t.token.to_string(),
                    line: t.location.line,
                    column: t.location.column,
                },
            ).collect(),
        ),
        Err(_) => None,
    }
}

/// True of a token that is white space or a comment.
pub open spec fn is_gap(token: Seq<char>) -> bool {
    token == " "@ || token == "\n"@ || token == "\t"@ || (token.len() >= 2 && ((token[0] == '-'
        && token[1] == '-') || (token[0] == '/' && token[1] == '*')))
}

/// The tokens but for white space and comments.
pub open spec fn without_gaps(tokens: Seq<TokenModel>) -> Seq<TokenModel>
    decreases tokens.len(),
{
    if tokens.len() == 0 {
        tokens
    } else if is_gap(tokens.last().text) {
        without_gaps(tokens.drop_last())
    } else {
        without_gaps(tokens.drop_last()).push(tokens.last())
    }
}

/// The tokens have the key word at that place, in any case.
pub open spec fn has_word(tokens: Seq<TokenModel>, i: int, word: Seq<char>) -> bool {
    0 <= i < tokens.len() && uppercase(tokens[i].text) == word
}

/// The tokens have that token at that place.
pub open spec fn has_token(tokens: Seq<TokenModel>, i: int, token: Seq<char>) -> bool {
    0 <= i < tokens.len() && tokens[i].text == token
}

/// A statement starts at that place that is the first of all or comes behind
/// another one.
pub open spec fn comes_in_turn(tokens: Seq<TokenModel>, i: int) -> bool {
    i == 0 || has_token(tokens, i - 1, ";"@)
}

/// What stands before that place asks for a statement to be explained.
pub open spec fn is_explained(tokens: Seq<TokenModel>, i: int) -> bool
    decreases i, 0int,
{
    i > 0 && {
        ||| (has_word(tokens, i - 1, "EXPLAIN"@) || has_word(tokens, i - 1, "DESCRIBE"@))
            && may_start(tokens, i - 1)
        ||| (has_word(tokens, i - 1, "ANALYZE"@) || has_word(tokens, i - 1, "VERBOSE"@))
            && is_explained(tokens, i - 1)
        ||| has_word(tokens, i - 2, "FORMAT"@) && is_explained(tokens, i - 2)
    }
}

/// A `PREPARE` statement may start before that place.
pub open spec fn is_prepared(tokens: Seq<TokenModel>, i: int) -> bool
    decreases i, 0int,
{
    i > 0 && (is_prepared(tokens, i - 1) || (has_word(tokens, i - 1, "PREPARE"@) && may_start(
        tokens,
        i - 1,
    )))
}

/// A statement may start at that place: one that comes in turn, the first of a
/// procedure, or one that is explained or prepared.
pub open spec fn may_start(tokens: Seq<TokenModel>, i: int) -> bool
    decreases i, 1int,
{
    ||| comes_in_turn(tokens, i)
    ||| has_word(tokens, i - 1, "BEGIN"@) && has_word(tokens, i - 2, "AS"@)
    ||| is_explained(tokens, i)
    ||| has_word(tokens, i - 1, "AS"@) && is_prepared(tokens, i)
}

/// The token is a name: a word or a text in quotes. A word starts with a letter
/// or an underscore, or with `#`, `@` or `@@` where these are no operators; a
/// letter before a quote makes no word.
pub open spec fn is_name(token: Seq<char>) -> bool {
    token.len() > 0 && {
        ||| token[0] == '\'' || token[0] == '"' || token[0] == '`'
        ||| (is_letter(token[0]) || token[0] == '_') && !token.contains('\'') && !token.contains('"')
        ||| token[0] == '#' && token.len() > 1 && token[1] != '-' && token[1] != '>'
        ||| token[0] == '@' && token.len() > 1 && token[1] != '>' && token[1] != '?' && (token[1]
            == '@' ==> token.len() > 2)
    }
}

/// The tokens have a name at that place.
pub open spec fn has_name(tokens: Seq<TokenModel>, i: int) -> bool {
    0 <= i < tokens.len() && is_name(tokens[i].text)
}

/// The tokens have names at that place, with dots between them.
pub open spec fn has_path(tokens: Seq<TokenModel>, i: int) -> bool
    decreases tokens.len() - i,
{
    has_name(tokens, i) && (has_token(tokens, i + 1, "."@) ==> has_path(tokens, i + 2))
}

/// The character is a decimal digit.
pub open spec fn is_digit(c: char) -> bool {
    '0' <= c && c <= '9'
}

/// The token is a number.
pub open spec fn is_number(token: Seq<char>) -> bool {
    token.len() > 0 && (is_digit(token[0]) || (token.len() > 1 && token[0] == '.'))
}

/// The token is a number that is whole and not over the limit. It may have an
/// `L` behind it.
pub open spec fn is_whole_number(token: Seq<char>, limit: nat) -> bool {
    let digits = if token.len() > 0 && token.last() == 'L' {
        token.drop_last()
    } else {
        token
    };
    match digits_value(digits) {
        Some(n) => n <= limit,
        None => false,
    }
}

/// The tokens have a number at that place that is not whole or over the limit.
pub open spec fn has_bad_number(tokens: Seq<TokenModel>, i: int, limit: nat) -> bool {
    0 <= i < tokens.len() && is_number(tokens[i].text) && !is_whole_number(tokens[i].text, limit)
}

/// The parser gives up on what may follow the token at that place. It takes it
/// for granted that a `REPLACE` statement can be parsed, that names follow
/// `GRANTED BY` and `FOR CHANNEL`, and that numbers behind `TOP` and
/// `AUTO_INCREMENT` are whole and small enough.
pub open spec fn chokes_at(tokens: Seq<TokenModel>, i: int) -> bool {
    ||| has_word(tokens, i, "REPLACE"@) && may_start(tokens, i)
    ||| has_word(tokens, i, "GRANTED"@) && has_word(tokens, i + 1, "BY"@) && !has_name(
        tokens,
        i + 2,
    )
    ||| has_word(tokens, i, "FOR"@) && has_word(tokens, i + 1, "CHANNEL"@) && !has_path(
        tokens,
        i + 2,
    )
    ||| has_word(tokens, i, "TOP"@) && has_bad_number(tokens, i + 1, u64::MAX as nat)
    ||| has_word(tokens, i, "AUTO_INCREMENT"@) && has_bad_number(
        tokens,
        if has_token(tokens, i + 1, "="@) {
            i + 2
        } else {
            i + 1
        },
        u32::MAX as nat,
    )
}

/// The parser can be asked for the statements of a text.
pub open spec fn can_parse(sql: Seq<char>) -> bool {
    match tokens_of(sql) {
        Some(tokens) => forall|i: int|
            0 <= i < without_gaps(tokens).len() ==> !#[trigger] chokes_at(without_gaps(tokens), i),
        None => true,
    }
}

/// `sqlparser::parser::Parser::parse_sql` with the `GenericDialect`. What the
/// statements say depends on the text alone, and so does the error, which comes
/// as its `Debug` writes it. The parser panics on a `REPLACE` statement that it
/// cannot parse, where no name follows `GRANTED BY`, or `FOR CHANNEL` or a dot
/// behind it, and where a number follows `TOP` that is no `u64`, or
/// `AUTO_INCREMENT` that is no `u32`.
#[verifier::external_body]
fn parse_sql(sql: &str) -> (r: Result<Vec<Statement>, String>)
    requires
        can_parse(sql@),
    ensures
        match r {
            Ok(statements) => parsed(sql@) == Ok::<Seq<StatementModel>, Seq<char>>(
                contents_of(statements@),
            ),
            Err(e) => parsed(sql@) == Err::<Seq<StatementModel>, Seq<char>>(e@),
        },
{
    Parser::parse_sql(&GenericDialect {}, sql).map_err(|e| format!("{:?}", e))
}

/// The forms of a statement that the engine tells apart.
enum StatementForm<'a> {
    Select(&'a Select),
    OtherQuery,
    CreateTable(String, Vec<(String, String)>),
    Insert(String, Option<&'a Query>),
    Other,
}

/// The variants of `sqlparser::ast::Statement`. A query holds a `SELECT` or
/// something else; a `CREATE TABLE` has a name and columns; an `INSERT` has a
/// table and perhaps a query as its source. Names and types come as their
/// `Display` writes them.
#[verifier::external_body]
fn statement_form(statement: &Statement) -> (r: StatementForm<'_>)
    ensures
        statement_contents(*statement) == (match r {
            StatementForm::Select(select) => StatementModel::Select(select_contents(*select)),
            StatementForm::OtherQuery => StatementModel::OtherQuery,
            StatementForm::CreateTable(name, columns) => StatementModel::CreateTable(
                name@,
                columns_of(columns@),
            ),
            StatementForm::Insert(name, source) => StatementModel::Insert(
                name@,
                match source {
                    Some(query) => values_contents(*query),
                    None => None,
                },
            ),
            StatementForm::Other => StatementModel::Other,
        }),
{
    match statement {
        Statement::Query(query) => match &*query.body {
            SetExpr::Select(select) => StatementForm::Select(select),
            _ => StatementForm::OtherQuery,
        },
        Statement::CreateTable { name, columns, .. } => StatementForm::CreateTable(
            name.to_string(),
            columns.iter().map(|c| (c.name.to_string(), c.data_type.to_string())).collect(),
        ),
        Statement::Insert { table_name, source, .. } => {
            StatementForm::Insert(table_name.to_string(), source.as_deref())
        },
        _ => StatementForm::Other,
    }
}

/// The field `body` of `sqlparser::ast::Query`: the rows of `VALUES`, with the
/// expressions as their `Display` writes them, or none where it is something
/// else.
#[verifier::external_body]
fn values_rows(query: &Query) -> (r: Option<Vec<Vec<String>>>)
    ensures
        match r {
            Some(rows) => values_contents(*query) == Some(rows_of(rows@)),
            None => values_contents(*query) is None,
        },
{
    match &*query.body {
        SetExpr::Values(values) => Some(
            values.rows.iter().map(|row| row.iter().map(|e| e.to_string()).collect()).collect(),
        ),
        _ => None,
    }
}

/// What each of the items says.
pub open spec fn all_from_contents(items: Seq<&TableWithJoins>) -> Seq<FromModel> {
    Seq::new(items.len(), |i: int| from_contents(*items[i]))
}

/// What each of the joins says.
pub open spec fn all_join_contents(joins: Seq<&Join>) -> Seq<JoinItemModel> {
    Seq::new(joins.len(), |i: int| join_contents(*joins[i]))
}

/// The items of the field `from` of `sqlparser::ast::Select`.
#[verifier::external_body]
fn from_items(select: &Select) -> (r: Vec<&TableWithJoins>)
    ensures
        all_from_contents(r@) == select_contents(*select).from,
{
    select.from.iter().collect()
}

/// The field `relation` of `sqlparser::ast::TableWithJoins`: the name of a table
/// as its `Display` writes it, or none where it is no table.
#[verifier::external_body]
fn from_table(item: &TableWithJoins) -> (r: Option<String>)
    ensures
        optional(r) == from_contents(*item).table,
{
    match &item.relation {
        TableFactor::Table { name, .. } => Some(name.to_string()),
        _ => None,
    }
}

/// The items of the field `joins` of `sqlparser::ast::TableWithJoins`.
#[verifier::external_body]
fn from_joins(item: &TableWithJoins) -> (r: Vec<&Join>)
    ensures
        all_join_contents(r@) == from_contents(*item).joins,
{
    item.joins.iter().collect()
}

/// The field `relation` of `sqlparser::ast::Join`: the name of a table as its
/// `Display` writes it, or none where it is no table.
#[verifier::external_body]
fn joined_table(join: &Join) -> (r: Option<String>)
    ensures
        optional(r) == join_contents(*join).table,
{
    match &join.relation {
        TableFactor::Table { name, .. } => Some(name.to_string()),
        _ => None,
    }
}

/// The forms of a join operator.
enum KindForm<'a> {
    Inner(&'a JoinConstraint),
    LeftOuter(&'a JoinConstraint),
    RightOuter(&'a JoinConstraint),
    FullOuter(&'a JoinConstraint),
    Cross,
    LeftSemi(&'a JoinConstraint),
    RightSemi(&'a JoinConstraint),
    LeftAnti(&'a JoinConstraint),
    RightAnti(&'a JoinConstraint),
    CrossApply,
    OuterApply,
}

/// The field `join_operator` of `sqlparser::ast::Join`, variant by variant.
#[verifier::external_body]
fn kind_form(join: &Join) -> (r: KindForm<'_>)
    ensures
        join_contents(*join).kind == (match r {
            KindForm::Inner(c) => KindModel::Inner(term_contents(*c)),
            KindForm::LeftOuter(c) => KindModel::LeftOuter(term_contents(*c)),
            KindForm::RightOuter(c) => KindModel::RightOuter(term_contents(*c)),
            KindForm::FullOuter(c) => KindModel::FullOuter(term_contents(*c)),
            KindForm::Cross => KindModel::Cross,
            KindForm::LeftSemi(c) => KindModel::LeftSemi(term_contents(*c)),
            KindForm::RightSemi(c) => KindModel::RightSemi(term_contents(*c)),
            KindForm::LeftAnti(c) => KindModel::LeftAnti(term_contents(*c)),
            KindForm::RightAnti(c) => KindModel::RightAnti(term_contents(*c)),
            KindForm::CrossApply => KindModel::CrossApply,
            KindForm::OuterApply => KindModel::OuterApply,
        }),
{
    match &join.join_operator {
        JoinOperator::Inner(c) => KindForm::Inner(c),
        JoinOperator::LeftOuter(c) => KindForm::LeftOuter(c),
        JoinOperator::RightOuter(c) => KindForm::RightOuter(c),
        JoinOperator::FullOuter(c) => KindForm::FullOuter(c),
        JoinOperator::CrossJoin => KindForm::Cross,
        JoinOperator::LeftSemi(c) => KindForm::LeftSemi(c),
        JoinOperator::RightSemi(c) => KindForm::RightSemi(c),
        JoinOperator::LeftAnti(c) => KindForm::LeftAnti(c),
        JoinOperator::RightAnti(c) => KindForm::RightAnti(c),
        JoinOperator::CrossApply => KindForm::CrossApply,
        JoinOperator::OuterApply => KindForm::OuterApply,
    }
}

/// The variants of `sqlparser::ast::JoinConstraint`, with the columns of `USING`
/// as they are named.
#[verifier::external_body]
fn term_form(constraint: &JoinConstraint) -> (r: JoinTerm)
    ensures
        term_model(r) == term_contents(*constraint),
{
    match constraint {
        JoinConstraint::On(_) => JoinTerm::On,
        JoinConstraint::Using(columns) => {
            JoinTerm::Using(columns.iter().map(|i| i.value.clone()).collect())
        },
        JoinConstraint::Natural => JoinTerm::Natural,
        JoinConstraint::None => JoinTerm::Unsaid,
    }
}

/// The items of the field `projection` of `sqlparser::ast::Select`, as their
/// `Display` writes them.
#[verifier::external_body]
fn projection(select: &Select) -> (r: Vec<String>)
    ensures
        texts(r@) == select_contents(*select).columns,
{
    select.projection.iter().map(|item| item.to_string()).collect()
}

/// The field `selection` of `sqlparser::ast::Select`.
#[verifier::external_body]
fn selection(select: &Select) -> (r: Option<&Expr>)
    ensures
        match r {
            Some(expr) => select_contents(*select).filter == Some(condition_contents(*expr)),
            None => select_contents(*select).filter is None,
        },
{
    select.selection.as_ref()
}

/// The forms of a condition that the engine tells apart.
enum ConditionForm<'a> {
    And(&'a Expr, &'a Expr),
    Equal(String, String),
    OneOf(String, Vec<String>, bool),
    Other,
}

/// The variants of `sqlparser::ast::Expr`: two conditions with `AND` between
/// them, an equation, an `IN` with a list, or anything else. Expressions come as
/// their `Display` writes them.
#[verifier::external_body]
fn condition_form(expr: &Expr) -> (r: ConditionForm<'_>)
    ensures
        condition_contents(*expr) == (match r {
            ConditionForm::And(a, b) => FilterModel::And(
                Box::new(condition_contents(*a)),
                Box::new(condition_contents(*b)),
            ),
            ConditionForm::Equal(column, value) => FilterModel::Equal(column@, value@),
            ConditionForm::OneOf(column, values, negated) => FilterModel::OneOf(
                column@,
                texts(values@),
                negated,
            ),
            ConditionForm::Other => FilterModel::Other,
        }),
{
    match expr {
        Expr::BinaryOp { left, op: BinaryOperator::And, right } => ConditionForm::And(left, right),
        Expr::BinaryOp { left, op: BinaryOperator::Eq, right } => {
            ConditionForm::Equal(left.to_string(), right.to_string())
        },
        Expr::InList { expr, list, negated } => {
            ConditionForm::OneOf(expr.to_string(), list.iter().map(|e| e.to_string()).collect(), *negated)
        },
        _ => ConditionForm::Other,
    }
}

/// The condition that an expression is.
fn read_condition(expr: &Expr) -> (r: Filter)
    ensures
        filter_model(r) == condition_contents(*expr),
    decreases condition_contents(*expr),
{
    match condition_form(expr) {
        ConditionForm::And(a, b) => {
            proof {
                let whole = condition_contents(*expr);
                assert(decreases_to!(whole => *whole->And_0));
                assert(decreases_to!(whole => *whole->And_1));
            }
            let left = read_condition(a);
            let right = read_condition(b);
            Filter::And(Box::new(left), Box::new(right))
        },
        ConditionForm::Equal(column, value) => Filter::Equal(column, value),
        ConditionForm::OneOf(column, values, negated) => Filter::OneOf(column, values, negated),
        ConditionForm::Other => Filter::Other,
    }
}

/// The kind that a join is of.
fn read_kind(join: &Join) -> (r: JoinKind)
    ensures
        kind_model(r) == join_contents(*join).kind,
{
    match kind_form(join) {
        KindForm::Inner(c) => JoinKind::Inner(term_form(c)),
        KindForm::LeftOuter(c) => JoinKind::LeftOuter(term_form(c)),
        KindForm::RightOuter(c) => JoinKind::RightOuter(term_form(c)),
        KindForm::FullOuter(c) => JoinKind::FullOuter(term_form(c)),
        KindForm::Cross => JoinKind::Cross,
        KindForm::LeftSemi(c) => JoinKind::LeftSemi(term_form(c)),
        KindForm::RightSemi(c) => JoinKind::RightSemi(term_form(c)),
        KindForm::LeftAnti(c) => JoinKind::LeftAnti(term_form(c)),
        KindForm::RightAnti(c) => JoinKind::RightAnti(term_form(c)),
        KindForm::CrossApply => JoinKind::CrossApply,
        KindForm::OuterApply => JoinKind::OuterApply,
    }
}

/// The item of a `FROM` clause.
fn read_from(item: &TableWithJoins) -> (r: FromItem)
    ensures
        r@ == from_contents(*item),
{
    let joins = from_joins(item);
    let ghost all = from_contents(*item).joins;
    let mut out: Vec<JoinItem> = Vec::new();
    let mut i: usize = 0;
    while i < joins.len()
        invariant
            i <= joins@.len(),
            all == all_join_contents(joins@),
            out@.len() == i,
            forall|k: int| 0 <= k < i ==> (#[trigger] out@[k])@ == all[k],
        decreases joins@.len() - i,
    {
        let join = joins[i];
        out.push(JoinItem { table: joined_table(join), kind: read_kind(join) });
        i += 1;
    }
    let r = FromItem { table: from_table(item), joins: out };
    assert(r@.joins =~= all);
    r
}

/// The query that a `SELECT` is.
fn read_select(select: &Select) -> (r: SelectQuery)
    ensures
        r@ == select_contents(*select),
{
    let filter = match selection(select) {
        Some(expr) => Some(read_condition(expr)),
        None => None,
    };
    let items = from_items(select);
    let ghost all = select_contents(*select).from;
    let mut from: Vec<FromItem> = Vec::new();
    let mut i: usize = 0;
    while i < items.len()
        invariant
            i <= items@.len(),
            all == all_from_contents(items@),
            from@.len() == i,
            forall|k: int| 0 <= k < i ==> (#[trigger] from@[k])@ == all[k],
        decreases items@.len() - i,
    {
        from.push(read_from(items[i]));
        i += 1;
    }
    let r = SelectQuery { from, columns: projection(select), filter };
    assert(r@.from =~= all);
    r
}

fn copy_term(term: &JoinTerm) -> (r: JoinKey)
    ensures
        key_model(r) == term_model(*term).key(),
{
    match term {
        JoinTerm::On => JoinKey::On,
        JoinTerm::Using(columns) => JoinKey::Using(copy_texts(columns)),
        JoinTerm::Natural => JoinKey::Natural,
        JoinTerm::Unsaid => JoinKey::Unsaid,
    }
}

impl SelectQuery {
    /// The table that the query reads from: the first of all, if there is one.
    pub fn table(&self) -> (r: Option<Option<&str>>)
        ensures
            match r {
                Some(table) => self@.table() == Some(optional_word(table)),
                None => self@.table() is None,
            },
    {
        if self.from.len() > 0 {
            Some(word(&self.from[0].table))
        } else {
            None
        }
    }

    /// The table that is joined: by the first join of the first table.
    pub fn joined(&self) -> (r: Option<Option<&str>>)
        ensures
            match r {
                Some(table) => self@.joined() == Some(optional_word(table)),
                None => self@.joined() is None,
            },
    {
        if self.from.len() > 0 && self.from[0].joins.len() > 0 {
            Some(word(&self.from[0].joins[0].table))
        } else {
            None
        }
    }

    /// The key of that join. An outer join is made as an inner one.
    pub fn key(&self) -> (r: Option<JoinKey>)
        ensures
            match r {
                Some(key) => self@.key() == Some(key_model(key)),
                None => self@.key() is None,
            },
    {
        if self.from.len() == 0 || self.from[0].joins.len() == 0 {
            return None;
        }
        Some(
            match &self.from[0].joins[0].kind {
                JoinKind::Inner(term) => copy_term(term),
                JoinKind::LeftOuter(term) => copy_term(term),
                JoinKind::RightOuter(term) => copy_term(term),
                JoinKind::FullOuter(term) => copy_term(term),
                JoinKind::Cross => JoinKey::Cross,
                _ => JoinKey::Other,
            },
        )
    }
}

/// The statement that a parsed statement is.
fn read_statement(statement: &Statement) -> (r: SqlStatement)
    ensures
        r@ == statement_contents(*statement),
{
    match statement_form(statement) {
        StatementForm::Select(select) => SqlStatement::Select(read_select(select)),
        StatementForm::OtherQuery => SqlStatement::OtherQuery,
        StatementForm::CreateTable(name, columns) => SqlStatement::CreateTable(name, columns),
        StatementForm::Insert(name, source) => {
            let rows = match source {
                Some(query) => values_rows(query),
                None => None,
            };
            SqlStatement::Insert(name, rows)
        },
        StatementForm::Other => SqlStatement::Other,
    }
}

// ---------------------------------------------------------------------------
// Reading a text
// ---------------------------------------------------------------------------

fn token_is_gap(token: &str) -> (r: bool)
    ensures
        r == is_gap(token@),
{
    if same(token, " ") || same(token, "\n") || same(token, "\t") {
        return true;
    }
    let chars = chars_of(token);
    chars.len() >= 2 && ((chars[0] == '-' && chars[1] == '-') || (chars[0] == '/' && chars[1]
        == '*'))
}

fn drop_gaps(tokens: Vec<SqlToken>) -> (r: Vec<SqlToken>)
    ensures
        tokens_model(r@) == without_gaps(tokens_model(tokens@)),
{
    let ghost all = tokens_model(tokens@);
    let mut rest = tokens;
    let mut out: Vec<SqlToken> = Vec::new();
    let mut i: usize = 0;
    assert(tokens_model(out@) =~= without_gaps(all.take(0)));
    while i < rest.len()
        invariant
            i <= rest@.len(),
            all == tokens_model(rest@),
            tokens_model(out@) == without_gaps(all.take(i as int)),
        decreases rest@.len() - i,
    {
        let ghost done = tokens_model(out@);
        assert(all.take(i as int + 1).drop_last() =~= all.take(i as int));
        let token = &rest[i];
        if !token_is_gap(token.text.as_str()) {
            let kept = SqlToken { text: token.text.clone(), line: token.line, column: token.column };
            out.push(kept);
            assert(tokens_model(out@) =~= done.push(all[i as int]));
        }
        i += 1;
    }
    assert(all.take(i as int) =~= all);
    out
}

fn is_word(tokens: &Vec<SqlToken>, i: usize, expected: &str) -> (r: bool)
    ensures
        r == has_word(tokens_model(tokens@), i as int, expected@),
{
    i < tokens.len() && same(to_uppercase(tokens[i].text.as_str()).as_str(), expected)
}

fn is_token(tokens: &Vec<SqlToken>, i: usize, expected: &str) -> (r: bool)
    ensures
        r == has_token(tokens_model(tokens@), i as int, expected@),
{
    i < tokens.len() && same(tokens[i].text.as_str(), expected)
}

fn is_in_turn(tokens: &Vec<SqlToken>, i: usize) -> (r: bool)
    ensures
        r == comes_in_turn(tokens_model(tokens@), i as int),
{
    i == 0 || is_token(tokens, i - 1, ";")
}

/// For each place, whether a statement may start there.
fn statement_starts(tokens: &Vec<SqlToken>) -> (r: Vec<bool>)
    ensures
        r@.len() == tokens@.len(),
        forall|i: int|
            0 <= i < r@.len() ==> #[trigger] r@[i] == may_start(tokens_model(tokens@), i),
{
    let ghost all = tokens_model(tokens@);
    let mut starts: Vec<bool> = Vec::new();
    let mut explained: Vec<bool> = Vec::new();
    let mut prepared: bool = false;
    let mut i: usize = 0;
    while i < tokens.len()
        invariant
            i <= tokens@.len(),
            all == tokens_model(tokens@),
            starts@.len() == i,
            explained@.len() == i,
            forall|k: int| 0 <= k < i ==> #[trigger] starts@[k] == may_start(all, k),
            forall|k: int| 0 <= k < i ==> #[trigger] explained@[k] == is_explained(all, k),
            i == 0 ==> !prepared,
            i > 0 ==> prepared == is_prepared(all, i - 1),
        decreases tokens@.len() - i,
    {
        if i > 0 && is_word(tokens, i - 1, "PREPARE") && starts[i - 1] {
            prepared = true;
        }
        assert(prepared == is_prepared(all, i as int));
        let is_explained_here = i > 0 && (((is_word(tokens, i - 1, "EXPLAIN") || is_word(
            tokens,
            i - 1,
            "DESCRIBE",
        )) && starts[i - 1]) || ((is_word(tokens, i - 1, "ANALYZE") || is_word(
            tokens,
            i - 1,
            "VERBOSE",
        )) && explained[i - 1]) || (i > 1 && is_word(tokens, i - 2, "FORMAT") && explained[i
            - 2]));
        assert(is_explained_here == is_explained(all, i as int));
        let start = is_in_turn(tokens, i) || (i > 1 && is_word(tokens, i - 1, "BEGIN") && is_word(
            tokens,
            i - 2,
            "AS",
        )) || is_explained_here || (i > 0 && is_word(tokens, i - 1, "AS") && prepared);
        starts.push(start);
        explained.push(is_explained_here);
        i += 1;
    }
    starts
}

fn has_char(chars: &Vec<char>, c: char) -> (r: bool)
    ensures
        r == chars@.contains(c),
{
    for i in 0..chars.len()
        invariant
            forall|k: int| 0 <= k < i ==> chars@[k] != c,
    {
        if chars[i] == c {
            return true;
        }
    }
    false
}

fn is_name_at(tokens: &Vec<SqlToken>, i: usize) -> (r: bool)
    ensures
        r == has_name(tokens_model(tokens@), i as int),
{
    if i >= tokens.len() {
        return false;
    }
    let chars = chars_of(tokens[i].text.as_str());
    if chars.len() == 0 {
        return false;
    }
    let c = chars[0];
    c == '\'' || c == '"' || c == '`' || ((is_alphabetic(c) || c == '_') && !has_char(&chars, '\'')
        && !has_char(&chars, '"')) || (c == '#' && chars.len() > 1 && chars[1] != '-' && chars[1]
        != '>') || (c == '@' && chars.len() > 1 && chars[1] != '>' && chars[1] != '?' && (chars[1]
        != '@' || chars.len() > 2))
}

fn is_path_at(tokens: &Vec<SqlToken>, i: usize) -> (r: bool)
    requires
        i <= tokens@.len(),
    ensures
        r == has_path(tokens_model(tokens@), i as int),
    decreases tokens@.len() - i,
{
    let count = tokens.len();
    if !is_name_at(tokens, i) {
        return false;
    }
    assert(i < count);
    if !is_token(tokens, i + 1, ".") {
        return true;
    }
    is_path_at(tokens, i + 2)
}

fn is_whole(token: &str, limit: u64) -> (r: bool)
    ensures
        r == is_whole_number(token@, limit as nat),
{
    let chars = chars_of(token);
    let count = if chars.len() > 0 && chars[chars.len() - 1] == 'L' {
        chars.len() - 1
    } else {
        chars.len()
    };
    let ghost digits = chars@.take(count as int);
    proof {
        if count < chars@.len() {
            assert(digits =~= token@.drop_last());
        } else {
            assert(digits =~= token@);
        }
        assert(digits.take(0) =~= Seq::<char>::empty());
    }
    let mut n: u128 = 0;
    let mut i: usize = 0;
    while i < count
        invariant
            i <= count <= chars@.len(),
            digits == chars@.take(count as int),
            digits_value(digits.take(i as int)) == Some(n as nat),
            n <= limit,
            is_whole_number(token@, limit as nat) == (match digits_value(digits) {
                Some(whole) => whole <= limit,
                None => false,
            }),
        decreases count - i,
    {
        let c = chars[i];
        proof {
            assert(digits.take(i as int + 1).drop_last() =~= digits.take(i as int));
            assert(digits.take(i as int + 1).last() == c);
        }
        if !('0' <= c && c <= '9') {
            proof {
                digits_value_grows(digits, i as int + 1);
            }
            return false;
        }
        n = 10 * n + (c as u32 - 48) as u128;
        i += 1;
        if n > limit as u128 {
            proof {
                digits_value_grows(digits, i as int);
            }
            return false;
        }
    }
    assert(digits.take(i as int) =~= digits);
    true
}

fn is_bad_number_at(tokens: &Vec<SqlToken>, i: usize, limit: u64) -> (r: bool)
    ensures
        r == has_bad_number(tokens_model(tokens@), i as int, limit as nat),
{
    if i >= tokens.len() {
        return false;
    }
    let chars = chars_of(tokens[i].text.as_str());
    if chars.len() == 0 {
        return false;
    }
    let c = chars[0];
    (('0' <= c && c <= '9') || (chars.len() > 1 && c == '.')) && !is_whole(
        tokens[i].text.as_str(),
        limit,
    )
}

/// True when the parser gives up on what may follow the token at that place.
fn gives_up_at(tokens: &Vec<SqlToken>, starts: &Vec<bool>, i: usize) -> (r: bool)
    requires
        i < tokens@.len(),
        starts@.len() == tokens@.len(),
        starts@[i as int] == may_start(tokens_model(tokens@), i as int),
    ensures
        r == chokes_at(tokens_model(tokens@), i as int),
{
    if starts[i] && is_word(tokens, i, "REPLACE") {
        return true;
    }
    let count = tokens.len();
    let granted = is_word(tokens, i, "GRANTED") && is_word(tokens, i + 1, "BY");
    if granted {
        assert(i + 1 < count);
        if !is_name_at(tokens, i + 2) {
            return true;
        }
    }
    let channel = is_word(tokens, i, "FOR") && is_word(tokens, i + 1, "CHANNEL");
    if channel {
        assert(i + 1 < count);
        if !is_path_at(tokens, i + 2) {
            return true;
        }
    }
    if is_word(tokens, i, "TOP") && is_bad_number_at(tokens, i + 1, u64::MAX) {
        return true;
    }
    is_word(tokens, i, "AUTO_INCREMENT") && if is_token(tokens, i + 1, "=") {
        is_bad_number_at(tokens, i + 2, u32::MAX as u64)
    } else {
        is_bad_number_at(tokens, i + 1, u32::MAX as u64)
    }
}

/// True when the parser can be asked for the statements of a text.
pub fn parser_takes(sql: &str) -> (r: bool)
    ensures
        r == can_parse(sql@),
{
    let tokens = match tokenize_sql(sql) {
        Some(tokens) => drop_gaps(tokens),
        None => {
            return true;
        },
    };
    let ghost all = tokens_model(tokens@);
    let starts = statement_starts(&tokens);
    let mut i: usize = 0;
    while i < tokens.len()
        invariant
            i <= tokens@.len(),
            all == tokens_model(tokens@),
            starts@.len() == tokens@.len(),
            forall|k: int| 0 <= k < starts@.len() ==> #[trigger] starts@[k] == may_start(all, k),
            tokens_of(sql@) is Some,
            all == without_gaps(tokens_of(sql@)->0),
            forall|k: int| 0 <= k < i ==> !#[trigger] chokes_at(all, k),
        decreases tokens@.len() - i,
    {
        if gives_up_at(&tokens, &starts, i) {
            return false;
        }
        i += 1;
    }
    true
}

// ---------------------------------------------------------------------------
// `REPLACE` for `INSERT`
// ---------------------------------------------------------------------------

/// The line and the column of the character at `k`, both counted from one.
pub open spec fn location_of(text: Seq<char>, k: int) -> (nat, nat)
    decreases k,
{
    if k <= 0 {
        (1, 1)
    } else {
        let (line, column) = location_of(text, k - 1);
        if text[k - 1] == '\n' {
            (line + 1, 1)
        } else {
            (line, column + 1)
        }
    }
}

/// A statement that comes in turn starts with `REPLACE` at that place.
pub open spec fn replaces_at(tokens: Seq<TokenModel>, place: (nat, nat)) -> bool {
    exists|i: int|
        #![trigger tokens[i]]
        has_word(tokens, i, "REPLACE"@) && comes_in_turn(tokens, i) && (
            tokens[i].line as nat,
            tokens[i].column as nat,
        ) == place
}

/// The text from `k` on with `INSERT` in place of each such `REPLACE`, and a blank
/// behind it, so that everything else stays where it is.
pub open spec fn inserting_from(text: Seq<char>, tokens: Seq<TokenModel>, k: int) -> Seq<char>
    decreases text.len() - k,
{
    if k >= text.len() {
        Seq::empty()
    } else if k + 7 <= text.len() && replaces_at(tokens, location_of(text, k)) {
        "INSERT "@ + inserting_from(text, tokens, k + 7)
    } else {
        seq![text[k]] + inserting_from(text, tokens, k + 1)
    }
}

/// The text with `INSERT` in place of `REPLACE` where statements start that come
/// in turn. The engine makes no difference between them, and the parser reports
/// what it cannot parse of the one only.
pub open spec fn inserting(text: Seq<char>) -> Seq<char> {
    match tokens_of(text) {
        Some(tokens) => inserting_from(text, without_gaps(tokens), 0),
        None => text,
    }
}

/// One of the places.
spec fn is_among(places: Seq<(u64, u64)>, place: (nat, nat)) -> bool {
    exists|j: int|
        0 <= j < places.len() && ((#[trigger] places[j]).0 as nat, places[j].1 as nat) == place
}

/// The places where statements that come in turn start with `REPLACE`.
fn replace_places(tokens: &Vec<SqlToken>) -> (r: Vec<(u64, u64)>)
    ensures
        forall|place: (nat, nat)| #[trigger]
            is_among(r@, place) == replaces_at(tokens_model(tokens@), place),
{
    let ghost all = tokens_model(tokens@);
    let mut places: Vec<(u64, u64)> = Vec::new();
    let mut i: usize = 0;
    while i < tokens.len()
        invariant
            i <= tokens@.len(),
            all == tokens_model(tokens@),
            forall|j: int|
                0 <= j < places@.len() ==> replaces_at(
                    all,
                    ((#[trigger] places@[j]).0 as nat, places@[j].1 as nat),
                ),
            forall|k: int|
                #![trigger all[k]]
                0 <= k < i && has_word(all, k, "REPLACE"@) && comes_in_turn(all, k) ==> is_among(
                    places@,
                    (all[k].line as nat, all[k].column as nat),
                ),
        decreases tokens@.len() - i,
    {
        if is_word(tokens, i, "REPLACE") && is_in_turn(tokens, i) {
            let ghost before = places@;
            places.push((tokens[i].line, tokens[i].column));
            assert(all[i as int] == tokens@[i as int]@);
            assert(places@[before.len() as int] == (all[i as int].line, all[i as int].column));
            assert forall|place: (nat, nat)| #[trigger] is_among(before, place) implies is_among(
                places@,
                place,
            ) by {
                let j = choose|j: int|
                    0 <= j < before.len() && ((#[trigger] before[j]).0 as nat, before[j].1 as nat)
                        == place;
                assert(places@[j] == before[j]);
            }
        }
        i += 1;
    }
    assert forall|place: (nat, nat)| #[trigger] is_among(places@, place) == replaces_at(all, place) by {
        if replaces_at(all, place) {
            let k = choose|k: int|
                #![trigger all[k]]
                has_word(all, k, "REPLACE"@) && comes_in_turn(all, k) && (
                    all[k].line as nat,
                    all[k].column as nat,
                ) == place;
            assert(is_among(places@, (all[k].line as nat, all[k].column as nat)));
        }
    }
    places
}

fn is_place(places: &Vec<(u64, u64)>, line: u128, column: u128) -> (r: bool)
    ensures
        r == is_among(places@, (line as nat, column as nat)),
{
    for j in 0..places.len()
        invariant
            forall|k: int|
                0 <= k < j ==> ((#[trigger] places@[k]).0 as nat, places@[k].1 as nat) != (
                    line as nat,
                    column as nat,
                ),
    {
        if places[j].0 as u128 == line && places[j].1 as u128 == column {
            return true;
        }
    }
    false
}

/// Puts `INSERT` in place of `REPLACE` where statements start that come in turn.
pub fn put_insert(text: &str) -> (r: String)
    ensures
        r@ == inserting(text@),
{
    let tokens = match tokenize_sql(text) {
        Some(tokens) => drop_gaps(tokens),
        None => {
            return text.to_string();
        },
    };
    let ghost all = tokens_model(tokens@);
    let places = replace_places(&tokens);
    let chars = chars_of(text);
    let mut out = String::new();
    let mut k: usize = 0;
    let mut line: u128 = 1;
    let mut column: u128 = 1;
    let mut skip: usize = 0;
    proof {
        reveal_strlit("INSERT ");
        assert(out@ + inserting_from(text@, all, 0) =~= inserting(text@));
    }
    while k < chars.len()
        invariant
            k <= chars@.len(),
            chars@ == text@,
            tokens_of(text@) is Some,
            all == without_gaps(tokens_of(text@)->0),
            forall|place: (nat, nat)| #[trigger]
                is_among(places@, place) == replaces_at(all, place),
            (line as nat, column as nat) == location_of(text@, k as int),
            line <= k + 1,
            column <= k + 1,
            k + skip <= chars@.len(),
            out@ + inserting_from(text@, all, k + skip) == inserting(text@),
        decreases chars@.len() - k,
    {
        if skip == 0 {
            if chars.len() - k >= 7 && is_place(&places, line, column) {
                let ghost before = out@;
                let ghost rest = inserting_from(text@, all, k + 7);
                out = cat2(out.as_str(), "INSERT ");
                assert(out@ + rest =~= before + ("INSERT "@ + rest));
                skip = 7;
            } else {
                let ghost before = out@;
                let ghost rest = inserting_from(text@, all, k + 1);
                out.push(chars[k]);
                assert(out@ + rest =~= before + (seq![text@[k as int]] + rest));
                skip = 1;
            }
        }
        if chars[k] == '\n' {
            line += 1;
            column = 1;
        } else {
            column += 1;
        }
        k += 1;
        skip -= 1;
    }
    assert(out@ + inserting_from(text@, all, k as int) =~= out@);
    out
}

// ---------------------------------------------------------------------------
// The first statement
// ---------------------------------------------------------------------------

/// The first statement of a text, if it has one, or the parser's complaint.
pub open spec fn first_statement(sql: Seq<char>) -> Result<Option<StatementModel>, Seq<char>> {
    match parsed(sql) {
        Ok(statements) => if statements.len() > 0 {
            Ok(Some(statements[0]))
        } else {
            Ok(None)
        },
        Err(e) => Err(e),
    }
}

/// Reads the first statement of a text.
pub fn read_first(sql: &str) -> (r: Result<Option<SqlStatement>, String>)
    requires
        can_parse(sql@),
    ensures
        match r {
            Ok(Some(statement)) => first_statement(sql@) == Ok::<
                Option<StatementModel>,
                Seq<char>,
            >(Some(statement@)),
            Ok(None) => first_statement(sql@) == Ok::<Option<StatementModel>, Seq<char>>(None),
            Err(e) => first_statement(sql@) == Err::<Option<StatementModel>, Seq<char>>(e@),
        },
{
    match parse_sql(sql) {
        Ok(statements) => if statements.len() > 0 {
            Ok(Some(read_statement(&statements[0])))
        } else {
            Ok(None)
        },
        Err(e) => Err(e),
    }
}

/// A statement is rewritten in its place: the text keeps its length, and stays as it is
/// where nothing is replaced.
pub proof fn rewriting_keeps_places(text: Seq<char>, tokens: Seq<TokenModel>, k: int, at: int)
    requires
        0 <= k <= at < text.len(),
        forall|j: int|
            k <= j <= at && at < j + 7 ==> !#[trigger] replaces_at(tokens, location_of(text, j)),
    ensures
        inserting_from(text, tokens, k).len() == text.len() - k,
        inserting_from(text, tokens, k)[at - k] == text[at],
    decreases text.len() - k,
{
    reveal_strlit("INSERT ");
    rewriting_keeps_the_length(text, tokens, k);
    if k + 7 <= text.len() && replaces_at(tokens, location_of(text, k)) {
        assert(at >= k + 7);
        rewriting_keeps_places(text, tokens, k + 7, at);
    } else if k < at {
        rewriting_keeps_places(text, tokens, k + 1, at);
    }
}

proof fn rewriting_keeps_the_length(text: Seq<char>, tokens: Seq<TokenModel>, k: int)
    requires
        0 <= k <= text.len(),
    ensures
        inserting_from(text, tokens, k).len() == text.len() - k,
    decreases text.len() - k,
{
    reveal_strlit("INSERT ");
    if k < text.len() {
        if k + 7 <= text.len() && replaces_at(tokens, location_of(text, k)) {
            rewriting_keeps_the_length(text, tokens, k + 7);
        } else {
            rewriting_keeps_the_length(text, tokens, k + 1);
        }
    }
}

} // verus!
