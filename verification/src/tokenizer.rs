use vstd::prelude::*;
use crate::tokens::{m_init, mstep, MState, Token};

verus! {

/// The kind of the next value a tokenizer reports.
#[derive(Debug, Clone, Copy, PartialEq, Eq, Structural)]
pub enum ValueType {
    Array,
    Object,
    String,
    Number,
    Boolean,
    Null,
}

/// Why a parse failed: the tokenizer rejected the input, or a number
/// could not be handled.
#[derive(Debug)]
pub enum JsonParseError {
    Reader(String),
    NumberParseError(String),
}

/// The token stream of the first top-level JSON value of a byte
/// sequence, cut short with one final `Error` token where tokenizing
/// first fails.
pub uninterp spec fn tokens_of(bytes: Seq<u8>) -> Seq<Token>;

/// A stream a tokenizer can emit from state `s`: it ends exactly when
/// the machine is done, every token steps the machine, and an `Error`
/// token ends the stream.
pub open spec fn swf(s: MState, ts: Seq<Token>) -> bool
    decreases ts.len(),
{
    if s.done {
        ts.len() == 0
    } else {
        &&& ts.len() > 0
        &&& (ts[0] is Error ==> ts.len() == 1)
        &&& (!(ts[0] is Error) ==> mstep(s, ts[0]) is Some && swf(
            mstep(s, ts[0]).unwrap(),
            ts.drop_first(),
        ))
    }
}

/// Streaming JSON tokenizer over an in-memory document, wrapping
/// struson's pull reader.
#[verifier::external_body]
pub struct Tokenizer {
    inner: struson::reader::JsonStreamReader<std::io::Cursor<Vec<u8>>>,
}

/// The tokens the tokenizer has not yet handed out.
pub uninterp spec fn tok_remaining(t: &Tokenizer) -> Seq<Token>;

/// The containers the tokenizer has opened and not yet closed, in
/// nesting order, `true` for an object. The reader's own panic guards
/// depend on this position, so the contracts track it.
pub uninterp spec fn tok_stack(t: &Tokenizer) -> Seq<bool>;

/// Whether a member name was consumed and its value not yet: the reader
/// stands between a name and its value.
pub uninterp spec fn tok_named(t: &Tokenizer) -> bool;

/// The reader stands where a member name or the end of the object comes
/// next. Value reads and `peek` panic here; only `next_name`,
/// `has_next` and `end_object` are allowed.
pub open spec fn tok_expects_name(t: &Tokenizer) -> bool {
    tok_stack(t).len() > 0 && tok_stack(t).last() && !tok_named(t)
}

impl Tokenizer {
    /// Relies on struson::reader::JsonStreamReader::new_custom, and on
    /// struson emitting the events of one top-level value in document
    /// order, stopping at the first malformed token. The nesting cap is
    /// lifted so that every document the writer can emit reads back.
    #[verifier::external_body]
    pub fn new(json: &[u8]) -> (r: Tokenizer)
        ensures
            tok_remaining(&r) == tokens_of(json@),
            tok_stack(&r) == Seq::<bool>::empty(),
            tok_named(&r) == false,
            swf(m_init(), tok_remaining(&r)),
            tok_remaining(&r).len() <= json@.len() + 1,
    {
        Tokenizer {
            inner: struson::reader::JsonStreamReader::new_custom(
                std::io::Cursor::new(json.to_vec()),
                struson::reader::ReaderSettings {
                    max_nesting_depth: None,
                    ..struson::reader::ReaderSettings::default()
                },
            ),
        }
    }

    /// Relies on struson's JsonReader::peek: reports the kind of the
    /// next value without consuming it. struson panics where a member
    /// name is expected or after the top-level value: the first is
    /// excluded by the position, the second by a token remaining. Where
    /// the stream stops in an error, the reported kind means nothing.
    #[verifier::external_body]
    pub fn peek(&mut self) -> (r: Result<ValueType, JsonParseError>)
        requires
            tok_remaining(old(self)).len() > 0,
            !tok_expects_name(old(self)),
        ensures
            tok_remaining(final(self)) == tok_remaining(old(self)),
            tok_stack(final(self)) == tok_stack(old(self)),
            tok_named(final(self)) == tok_named(old(self)),
            tok_remaining(old(self))[0] is BeginArray ==> (r matches Ok(k) && k
                == ValueType::Array),
            tok_remaining(old(self))[0] is BeginObject ==> (r matches Ok(k) && k
                == ValueType::Object),
            tok_remaining(old(self))[0] is Str ==> (r matches Ok(k) && k == ValueType::String),
            tok_remaining(old(self))[0] is Num ==> (r matches Ok(k) && k == ValueType::Number),
            tok_remaining(old(self))[0] is Bool ==> (r matches Ok(k) && k == ValueType::Boolean),
            tok_remaining(old(self))[0] is Null ==> (r matches Ok(k) && k == ValueType::Null),
            tok_remaining(old(self))[0] is EndArray ==> r is Err,
            tok_remaining(old(self))[0] is EndObject ==> r is Err,
    {
        match struson::reader::JsonReader::peek(&mut self.inner) {
            Ok(struson::reader::ValueType::Array) => Ok(ValueType::Array),
            Ok(struson::reader::ValueType::Object) => Ok(ValueType::Object),
            Ok(struson::reader::ValueType::String) => Ok(ValueType::String),
            Ok(struson::reader::ValueType::Number) => Ok(ValueType::Number),
            Ok(struson::reader::ValueType::Boolean) => Ok(ValueType::Boolean),
            Ok(struson::reader::ValueType::Null) => Ok(ValueType::Null),
            Err(e) => Err(JsonParseError::Reader(format!("{e}"))),
        }
    }

    /// Relies on struson's JsonReader::begin_array: consumes the opening
    /// bracket, or reports the tokenizer failure the stream stops in.
    /// Only callable where a value may come, so the call cannot panic.
    #[verifier::external_body]
    pub fn begin_array(&mut self) -> (r: Result<(), JsonParseError>)
        requires
            tok_remaining(old(self)).len() > 0,
            tok_remaining(old(self))[0] is BeginArray || tok_remaining(old(self))[0] is Error,
            !tok_expects_name(old(self)),
        ensures
            tok_remaining(old(self))[0] is BeginArray ==> r is Ok && tok_remaining(final(self))
                == tok_remaining(old(self)).drop_first() && tok_stack(final(self)) == tok_stack(
                old(self),
            ).push(false) && tok_named(final(self)) == false,
            tok_remaining(old(self))[0] is Error ==> r is Err,
    {
        struson::reader::JsonReader::begin_array(&mut self.inner).map_err(
            |e| JsonParseError::Reader(format!("{e}")),
        )
    }

    /// Relies on struson's JsonReader::end_array: consumes the closing
    /// bracket of the array the reader stands in.
    #[verifier::external_body]
    pub fn end_array(&mut self) -> (r: Result<(), JsonParseError>)
        requires
            tok_remaining(old(self)).len() > 0,
            tok_remaining(old(self))[0] is EndArray,
            tok_stack(old(self)).len() > 0,
            !tok_stack(old(self)).last(),
        ensures
            r is Ok,
            tok_remaining(final(self)) == tok_remaining(old(self)).drop_first(),
            tok_stack(final(self)) == tok_stack(old(self)).drop_last(),
            tok_named(final(self)) == false,
    {
        struson::reader::JsonReader::end_array(&mut self.inner).map_err(
            |e| JsonParseError::Reader(format!("{e}")),
        )
    }

    /// Relies on struson's JsonReader::begin_object: consumes the opening
    /// brace, or reports the tokenizer failure the stream stops in. Only
    /// callable where a value may come, so the call cannot panic.
    #[verifier::external_body]
    pub fn begin_object(&mut self) -> (r: Result<(), JsonParseError>)
        requires
            tok_remaining(old(self)).len() > 0,
            tok_remaining(old(self))[0] is BeginObject || tok_remaining(old(self))[0] is Error,
            !tok_expects_name(old(self)),
        ensures
            tok_remaining(old(self))[0] is BeginObject ==> r is Ok && tok_remaining(final(self))
                == tok_remaining(old(self)).drop_first() && tok_stack(final(self)) == tok_stack(
                old(self),
            ).push(true) && tok_named(final(self)) == false,
            tok_remaining(old(self))[0] is Error ==> r is Err,
    {
        struson::reader::JsonReader::begin_object(&mut self.inner).map_err(
            |e| JsonParseError::Reader(format!("{e}")),
        )
    }

    /// Relies on struson's JsonReader::end_object: consumes the closing
    /// brace of the object the reader stands in, where no member is half
    /// read.
    #[verifier::external_body]
    pub fn end_object(&mut self) -> (r: Result<(), JsonParseError>)
        requires
            tok_remaining(old(self)).len() > 0,
            tok_remaining(old(self))[0] is EndObject,
            tok_stack(old(self)).len() > 0,
            tok_stack(old(self)).last(),
            !tok_named(old(self)),
        ensures
            r is Ok,
            tok_remaining(final(self)) == tok_remaining(old(self)).drop_first(),
            tok_stack(final(self)) == tok_stack(old(self)).drop_last(),
            tok_named(final(self)) == false,
    {
        struson::reader::JsonReader::end_object(&mut self.inner).map_err(
            |e| JsonParseError::Reader(format!("{e}")),
        )
    }

    /// Relies on struson's JsonReader::has_next: whether the current
    /// container has another member or element. struson panics between a
    /// member name and its value, and outside any container: both are
    /// excluded by the position. Where the stream stops in an error, the
    /// call may still report a next element: struson validates number
    /// and string bodies only when they are consumed, so a token that
    /// merely begins like a value is counted present and fails later.
    #[verifier::external_body]
    pub fn has_next(&mut self) -> (r: Result<bool, JsonParseError>)
        requires
            tok_stack(old(self)).len() > 0,
            !tok_named(old(self)),
            tok_remaining(old(self)).len() > 0,
        ensures
            tok_remaining(final(self)) == tok_remaining(old(self)),
            tok_stack(final(self)) == tok_stack(old(self)),
            tok_named(final(self)) == tok_named(old(self)),
            tok_remaining(old(self))[0] is Error ==> r is Err || (r matches Ok(h) && h == true),
            (tok_remaining(old(self))[0] is EndArray || tok_remaining(old(self))[0] is EndObject)
                ==> (r matches Ok(h) && h == false),
            !(tok_remaining(old(self))[0] is Error || tok_remaining(old(self))[0] is EndArray
                || tok_remaining(old(self))[0] is EndObject) ==> (r matches Ok(h) && h == true),
    {
        struson::reader::JsonReader::has_next(&mut self.inner).map_err(
            |e| JsonParseError::Reader(format!("{e}")),
        )
    }

    /// Relies on struson's JsonReader::next_name_owned: the next member
    /// name. Only callable where the reader expects a name, so the call
    /// cannot panic.
    #[verifier::external_body]
    pub fn next_name(&mut self) -> (r: Result<String, JsonParseError>)
        requires
            tok_remaining(old(self)).len() > 0,
            tok_remaining(old(self))[0] is Name || tok_remaining(old(self))[0] is Error,
            tok_expects_name(old(self)),
        ensures
            tok_remaining(old(self))[0] matches Token::Name(n) ==> (r matches Ok(s) && s@ == n)
                && tok_remaining(final(self)) == tok_remaining(old(self)).drop_first()
                && tok_stack(final(self)) == tok_stack(old(self)) && tok_named(final(self))
                == true,
            tok_remaining(old(self))[0] is Error ==> r is Err,
    {
        struson::reader::JsonReader::next_name_owned(&mut self.inner).map_err(
            |e| JsonParseError::Reader(format!("{e}")),
        )
    }

    /// Relies on struson's JsonReader::next_string: the next string
    /// value, unescaped. Only callable where a value may come, so the
    /// call cannot panic.
    #[verifier::external_body]
    pub fn next_string(&mut self) -> (r: Result<String, JsonParseError>)
        requires
            tok_remaining(old(self)).len() > 0,
            tok_remaining(old(self))[0] is Str || tok_remaining(old(self))[0] is Error,
            !tok_expects_name(old(self)),
        ensures
            tok_remaining(old(self))[0] matches Token::Str(x) ==> (r matches Ok(s) && s@ == x)
                && vstd::utf8::encode_utf8(x).len() < usize::MAX && tok_remaining(final(self))
                == tok_remaining(old(self)).drop_first() && tok_stack(final(self)) == tok_stack(
                old(self),
            ) && tok_named(final(self)) == false,
            tok_remaining(old(self))[0] is Error ==> r is Err,
    {
        struson::reader::JsonReader::next_string(&mut self.inner).map_err(
            |e| JsonParseError::Reader(format!("{e}")),
        )
    }

    /// Relies on struson's JsonReader::next_number_as_string: the next
    /// number value as its numeral text, exactly as it stands in the
    /// input. Only callable where a value may come, so the call cannot
    /// panic.
    #[verifier::external_body]
    pub fn next_number_str(&mut self) -> (r: Result<String, JsonParseError>)
        requires
            tok_remaining(old(self)).len() > 0,
            tok_remaining(old(self))[0] is Num || tok_remaining(old(self))[0] is Error,
            !tok_expects_name(old(self)),
        ensures
            tok_remaining(old(self))[0] matches Token::Num(x) ==> (r matches Ok(s) && s@ == x)
                && crate::tokens::is_json_numeral(x) && tok_remaining(final(self))
                == tok_remaining(old(self)).drop_first() && tok_stack(final(self)) == tok_stack(
                old(self),
            ) && tok_named(final(self)) == false,
            tok_remaining(old(self))[0] is Error ==> r is Err,
    {
        struson::reader::JsonReader::next_number_as_string(&mut self.inner).map_err(
            |e| JsonParseError::NumberParseError(format!("{e}")),
        )
    }

    /// Relies on struson's JsonReader::next_bool. Only callable where a
    /// value may come, so the call cannot panic.
    #[verifier::external_body]
    pub fn next_bool(&mut self) -> (r: Result<bool, JsonParseError>)
        requires
            tok_remaining(old(self)).len() > 0,
            tok_remaining(old(self))[0] is Bool || tok_remaining(old(self))[0] is Error,
            !tok_expects_name(old(self)),
        ensures
            tok_remaining(old(self))[0] matches Token::Bool(b) ==> (r matches Ok(rb) && rb == b)
                && tok_remaining(final(self)) == tok_remaining(old(self)).drop_first()
                && tok_stack(final(self)) == tok_stack(old(self)) && tok_named(final(self))
                == false,
            tok_remaining(old(self))[0] is Error ==> r is Err,
    {
        struson::reader::JsonReader::next_bool(&mut self.inner).map_err(
            |e| JsonParseError::Reader(format!("{e}")),
        )
    }

    /// Relies on struson's JsonReader::next_null. Only callable where a
    /// value may come, so the call cannot panic.
    #[verifier::external_body]
    pub fn next_null(&mut self) -> (r: Result<(), JsonParseError>)
        requires
            tok_remaining(old(self)).len() > 0,
            tok_remaining(old(self))[0] is Null || tok_remaining(old(self))[0] is Error,
            !tok_expects_name(old(self)),
        ensures
            tok_remaining(old(self))[0] is Null ==> r is Ok && tok_remaining(final(self))
                == tok_remaining(old(self)).drop_first() && tok_stack(final(self)) == tok_stack(
                old(self),
            ) && tok_named(final(self)) == false,
            tok_remaining(old(self))[0] is Error ==> r is Err,
    {
        struson::reader::JsonReader::next_null(&mut self.inner).map_err(
            |e| JsonParseError::Reader(format!("{e}")),
        )
    }
}

} // verus!
