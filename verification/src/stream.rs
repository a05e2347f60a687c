//! The stream of named regions in which a scene is persisted.
//!
//! A stream is a row of tokens. `Enter` opens a region of a given name and
//! `Leave` closes the innermost open one; between them stand the fields of the
//! region and its sub-regions, in a fixed order. A field has a name and a
//! value of one of a few kinds. The names come from a fixed vocabulary.
//!
//! Reading goes by position: a reader says what it expects at a place and
//! fails where the stream holds something else.

use crate::handle::Handle;
use vstd::prelude::*;

verus! {

/// The names of regions and fields.
#[derive(Clone, Copy, Debug, PartialEq, Eq, Structural, Hash)]
pub enum Key {
    Graph,
    Node,
    Kind,
    Handle,
    Base,
    Name,
    Transform,
    PositionX,
    PositionY,
    PositionZ,
    RotationI,
    RotationJ,
    RotationK,
    RotationW,
    ScaleX,
    ScaleY,
    ScaleZ,
    Visibility,
    Parent,
    Children,
    HasResource,
    Resource,
    IsResourceInstance,
    Original,
    HasLifetime,
    Lifetime,
    DepthOffset,
    LodGroup,
    Begin,
    End,
    Objects,
    Length,
    Item,
}

/// The value of a field.
#[derive(Clone, Debug, PartialEq, Eq)]
pub enum Value {
    Bool(bool),
    U32(u32),
    U64(u64),
    I64(i64),
    Handle(Handle),
    Text(String),
}

/// One token of a stream.
#[derive(Clone, Debug, PartialEq, Eq)]
pub enum Token {
    /// Opens a region.
    Enter(Key),
    /// Closes the innermost open region.
    Leave,
    /// A field of the innermost open region.
    Field(Key, Value),
}

/// What a value holds.
pub enum ValueView {
    Bool(bool),
    U32(u32),
    U64(u64),
    I64(i64),
    Handle(Handle),
    Text(Seq<char>),
}

/// What a token holds.
pub enum TokenView {
    Enter(Key),
    Leave,
    Field(Key, ValueView),
}

impl View for Value {
    type V = ValueView;

    open spec fn view(&self) -> ValueView {
        match *self {
            Value::Bool(b) => ValueView::Bool(b),
            Value::U32(n) => ValueView::U32(n),
            Value::U64(n) => ValueView::U64(n),
            Value::I64(n) => ValueView::I64(n),
            Value::Handle(h) => ValueView::Handle(h),
            Value::Text(text) => ValueView::Text(text@),
        }
    }
}

impl View for Token {
    type V = TokenView;

    open spec fn view(&self) -> TokenView {
        match *self {
            Token::Enter(key) => TokenView::Enter(key),
            Token::Leave => TokenView::Leave,
            Token::Field(key, value) => TokenView::Field(key, value@),
        }
    }
}

/// What a row of tokens holds.
pub open spec fn content(tokens: Seq<Token>) -> Seq<TokenView> {
    tokens.map_values(|token: Token| token@)
}

/// Why a stream could not be read.
#[derive(Clone, Copy, Debug, PartialEq, Eq, Structural)]
pub enum DecodeErrorKind {
    /// The stream ends where a token is expected.
    UnexpectedEnd,
    /// The token is not the one expected: another kind of token, another
    /// name, or a value of another kind.
    UnexpectedToken,
    /// The token is the one expected, but what it holds cannot be accepted.
    InvalidValue,
    /// The kind of node is not known.
    UnknownNodeKind,
}

/// A failure to read a stream: where, and why.
#[derive(Clone, Copy, Debug, PartialEq, Eq, Structural)]
pub struct DecodeError {
    /// The place of the token at which reading failed.
    pub at: usize,
    /// The reason.
    pub kind: DecodeErrorKind,
}

/// The failure of kind `kind` at place `at`.
pub open spec fn failure(at: int, kind: DecodeErrorKind) -> DecodeError {
    DecodeError { at: at as usize, kind }
}

/// What reading an `Enter` of name `key` at place `at` gives.
pub open spec fn enter_at(s: Seq<TokenView>, at: int, key: Key) -> Result<(), DecodeError> {
    if at >= s.len() {
        Err(failure(at, DecodeErrorKind::UnexpectedEnd))
    } else if s[at] == TokenView::Enter(key) {
        Ok(())
    } else {
        Err(failure(at, DecodeErrorKind::UnexpectedToken))
    }
}

/// What reading a `Leave` at place `at` gives.
pub open spec fn leave_at(s: Seq<TokenView>, at: int) -> Result<(), DecodeError> {
    if at >= s.len() {
        Err(failure(at, DecodeErrorKind::UnexpectedEnd))
    } else if s[at] == TokenView::Leave {
        Ok(())
    } else {
        Err(failure(at, DecodeErrorKind::UnexpectedToken))
    }
}

/// What reading the field of name `key` at place `at` gives: its value.
pub open spec fn field_at(s: Seq<TokenView>, at: int, key: Key) -> Result<ValueView, DecodeError> {
    if at >= s.len() {
        Err(failure(at, DecodeErrorKind::UnexpectedEnd))
    } else {
        match s[at] {
            TokenView::Field(name, value) => if name == key {
                Ok(value)
            } else {
                Err(failure(at, DecodeErrorKind::UnexpectedToken))
            },
            _ => Err(failure(at, DecodeErrorKind::UnexpectedToken)),
        }
    }
}

/// What reading a truth value under `key` at place `at` gives.
pub open spec fn bool_at(s: Seq<TokenView>, at: int, key: Key) -> Result<bool, DecodeError> {
    match field_at(s, at, key) {
        Ok(ValueView::Bool(b)) => Ok(b),
        Ok(_) => Err(failure(at, DecodeErrorKind::UnexpectedToken)),
        Err(e) => Err(e),
    }
}

/// What reading a 32-bit number under `key` at place `at` gives.
pub open spec fn u32_at(s: Seq<TokenView>, at: int, key: Key) -> Result<u32, DecodeError> {
    match field_at(s, at, key) {
        Ok(ValueView::U32(n)) => Ok(n),
        Ok(_) => Err(failure(at, DecodeErrorKind::UnexpectedToken)),
        Err(e) => Err(e),
    }
}

/// What reading a 64-bit number under `key` at place `at` gives.
pub open spec fn u64_at(s: Seq<TokenView>, at: int, key: Key) -> Result<u64, DecodeError> {
    match field_at(s, at, key) {
        Ok(ValueView::U64(n)) => Ok(n),
        Ok(_) => Err(failure(at, DecodeErrorKind::UnexpectedToken)),
        Err(e) => Err(e),
    }
}

/// What reading a signed 64-bit number under `key` at place `at` gives.
pub open spec fn i64_at(s: Seq<TokenView>, at: int, key: Key) -> Result<i64, DecodeError> {
    match field_at(s, at, key) {
        Ok(ValueView::I64(n)) => Ok(n),
        Ok(_) => Err(failure(at, DecodeErrorKind::UnexpectedToken)),
        Err(e) => Err(e),
    }
}

/// What reading a handle under `key` at place `at` gives.
pub open spec fn handle_at(s: Seq<TokenView>, at: int, key: Key) -> Result<Handle, DecodeError> {
    match field_at(s, at, key) {
        Ok(ValueView::Handle(h)) => Ok(h),
        Ok(_) => Err(failure(at, DecodeErrorKind::UnexpectedToken)),
        Err(e) => Err(e),
    }
}

/// What reading a text under `key` at place `at` gives.
pub open spec fn text_at(s: Seq<TokenView>, at: int, key: Key) -> Result<Seq<char>, DecodeError> {
    match field_at(s, at, key) {
        Ok(ValueView::Text(text)) => Ok(text),
        Ok(_) => Err(failure(at, DecodeErrorKind::UnexpectedToken)),
        Err(e) => Err(e),
    }
}

/// Appends `token` to the stream.
pub fn put(out: &mut Vec<Token>, token: Token)
    ensures
        content(final(out)@) == content(old(out)@).push(token@),
{
    out.push(token);
    assert(content(out@) =~= content(old(out)@).push(token@));
}

/// Reads an `Enter` of name `key` at place `at`.
pub fn read_enter(tokens: &Vec<Token>, at: usize, key: Key) -> (r: Result<(), DecodeError>)
    ensures
        r == enter_at(content(tokens@), at as int, key),
        r is Ok ==> at < tokens@.len(),
{
    if at >= tokens.len() {
        return Err(DecodeError { at, kind: DecodeErrorKind::UnexpectedEnd });
    }
    match &tokens[at] {
        Token::Enter(name) => {
            if *name == key {
                Ok(())
            } else {
                Err(DecodeError { at, kind: DecodeErrorKind::UnexpectedToken })
            }
        },
        _ => Err(DecodeError { at, kind: DecodeErrorKind::UnexpectedToken }),
    }
}

/// Reads a `Leave` at place `at`.
pub fn read_leave(tokens: &Vec<Token>, at: usize) -> (r: Result<(), DecodeError>)
    ensures
        r == leave_at(content(tokens@), at as int),
        r is Ok ==> at < tokens@.len(),
{
    if at >= tokens.len() {
        return Err(DecodeError { at, kind: DecodeErrorKind::UnexpectedEnd });
    }
    match &tokens[at] {
        Token::Leave => Ok(()),
        _ => Err(DecodeError { at, kind: DecodeErrorKind::UnexpectedToken }),
    }
}

/// Reads the field of name `key` at place `at`.
pub fn read_field<'a>(tokens: &'a Vec<Token>, at: usize, key: Key) -> (r: Result<
    &'a Value,
    DecodeError,
>)
    ensures
        match r {
            Ok(value) => field_at(content(tokens@), at as int, key) == Ok::<ValueView, DecodeError>(
                value@,
            ),
            Err(e) => field_at(content(tokens@), at as int, key) == Err::<ValueView, DecodeError>(e),
        },
        r is Ok ==> at < tokens@.len(),
{
    if at >= tokens.len() {
        return Err(DecodeError { at, kind: DecodeErrorKind::UnexpectedEnd });
    }
    match &tokens[at] {
        Token::Field(name, value) => {
            if *name == key {
                Ok(value)
            } else {
                Err(DecodeError { at, kind: DecodeErrorKind::UnexpectedToken })
            }
        },
        _ => Err(DecodeError { at, kind: DecodeErrorKind::UnexpectedToken }),
    }
}

/// Reads a truth value under `key` at place `at`.
pub fn read_bool(tokens: &Vec<Token>, at: usize, key: Key) -> (r: Result<bool, DecodeError>)
    ensures
        r == bool_at(content(tokens@), at as int, key),
        r is Ok ==> at < tokens@.len(),
{
    match read_field(tokens, at, key) {
        Ok(Value::Bool(b)) => Ok(*b),
        Ok(_) => Err(DecodeError { at, kind: DecodeErrorKind::UnexpectedToken }),
        Err(e) => Err(e),
    }
}

/// Reads a 32-bit number under `key` at place `at`.
pub fn read_u32(tokens: &Vec<Token>, at: usize, key: Key) -> (r: Result<u32, DecodeError>)
    ensures
        r == u32_at(content(tokens@), at as int, key),
        r is Ok ==> at < tokens@.len(),
{
    match read_field(tokens, at, key) {
        Ok(Value::U32(n)) => Ok(*n),
        Ok(_) => Err(DecodeError { at, kind: DecodeErrorKind::UnexpectedToken }),
        Err(e) => Err(e),
    }
}

/// Reads a 64-bit number under `key` at place `at`.
pub fn read_u64(tokens: &Vec<Token>, at: usize, key: Key) -> (r: Result<u64, DecodeError>)
    ensures
        r == u64_at(content(tokens@), at as int, key),
        r is Ok ==> at < tokens@.len(),
{
    match read_field(tokens, at, key) {
        Ok(Value::U64(n)) => Ok(*n),
        Ok(_) => Err(DecodeError { at, kind: DecodeErrorKind::UnexpectedToken }),
        Err(e) => Err(e),
    }
}

/// Reads a signed 64-bit number under `key` at place `at`.
pub fn read_i64(tokens: &Vec<Token>, at: usize, key: Key) -> (r: Result<i64, DecodeError>)
    ensures
        r == i64_at(content(tokens@), at as int, key),
        r is Ok ==> at < tokens@.len(),
{
    match read_field(tokens, at, key) {
        Ok(Value::I64(n)) => Ok(*n),
        Ok(_) => Err(DecodeError { at, kind: DecodeErrorKind::UnexpectedToken }),
        Err(e) => Err(e),
    }
}

/// Reads a handle under `key` at place `at`.
pub fn read_handle(tokens: &Vec<Token>, at: usize, key: Key) -> (r: Result<Handle, DecodeError>)
    ensures
        r == handle_at(content(tokens@), at as int, key),
        r is Ok ==> at < tokens@.len(),
{
    match read_field(tokens, at, key) {
        Ok(Value::Handle(h)) => Ok(*h),
        Ok(_) => Err(DecodeError { at, kind: DecodeErrorKind::UnexpectedToken }),
        Err(e) => Err(e),
    }
}

/// Reads a text under `key` at place `at`.
pub fn read_text(tokens: &Vec<Token>, at: usize, key: Key) -> (r: Result<String, DecodeError>)
    ensures
        match r {
            Ok(text) => text_at(content(tokens@), at as int, key) == Ok::<Seq<char>, DecodeError>(
                text@,
            ),
            Err(e) => text_at(content(tokens@), at as int, key) == Err::<Seq<char>, DecodeError>(e),
        },
        r is Ok ==> at < tokens@.len(),
{
    match read_field(tokens, at, key) {
        Ok(Value::Text(text)) => Ok(text.clone()),
        Ok(_) => Err(DecodeError { at, kind: DecodeErrorKind::UnexpectedToken }),
        Err(e) => Err(e),
    }
}

} // verus!
