use vstd::prelude::*;
use crate::tokenizer::tokens_of;
use crate::tokens::{m_done, m_init, mrun, mstep, Token};

verus! {

/// Streaming JSON writer into memory, wrapping struson's stream writer.
/// Writing into a `Vec` sink cannot fail, and the contracts only allow
/// events the writer accepts, so the methods cannot panic.
#[verifier::external_body]
pub struct Emitter {
    inner: struson::writer::JsonStreamWriter<Vec<u8>>,
}

/// The events written so far.
pub uninterp spec fn emit_events(e: &Emitter) -> Seq<Token>;

/// The bytes the writer produces for a complete event sequence: compact
/// JSON with a fixed escaping rule, a function of the events alone.
pub uninterp spec fn emitted_bytes_of(events: Seq<Token>) -> Seq<u8>;

impl Emitter {
    /// Relies on struson::writer::JsonStreamWriter::new.
    #[verifier::external_body]
    pub fn new() -> (r: Emitter)
        ensures
            emit_events(&r) == Seq::<Token>::empty(),
    {
        Emitter { inner: struson::writer::JsonStreamWriter::new(Vec::new()) }
    }

    /// Relies on struson's JsonWriter::begin_array.
    #[verifier::external_body]
    pub fn begin_array(&mut self)
        requires
            mrun(m_init(), emit_events(old(self))) matches Some(s) && mstep(
                s,
                Token::BeginArray,
            ) is Some,
        ensures
            emit_events(final(self)) == emit_events(old(self)).push(Token::BeginArray),
    {
        struson::writer::JsonWriter::begin_array(&mut self.inner).expect(
            "writing to memory cannot fail",
        );
    }

    /// Relies on struson's JsonWriter::end_array.
    #[verifier::external_body]
    pub fn end_array(&mut self)
        requires
            mrun(m_init(), emit_events(old(self))) matches Some(s) && mstep(
                s,
                Token::EndArray,
            ) is Some,
        ensures
            emit_events(final(self)) == emit_events(old(self)).push(Token::EndArray),
    {
        struson::writer::JsonWriter::end_array(&mut self.inner).expect(
            "writing to memory cannot fail",
        );
    }

    /// Relies on struson's JsonWriter::begin_object.
    #[verifier::external_body]
    pub fn begin_object(&mut self)
        requires
            mrun(m_init(), emit_events(old(self))) matches Some(s) && mstep(
                s,
                Token::BeginObject,
            ) is Some,
        ensures
            emit_events(final(self)) == emit_events(old(self)).push(Token::BeginObject),
    {
        struson::writer::JsonWriter::begin_object(&mut self.inner).expect(
            "writing to memory cannot fail",
        );
    }

    /// Relies on struson's JsonWriter::end_object.
    #[verifier::external_body]
    pub fn end_object(&mut self)
        requires
            mrun(m_init(), emit_events(old(self))) matches Some(s) && mstep(
                s,
                Token::EndObject,
            ) is Some,
        ensures
            emit_events(final(self)) == emit_events(old(self)).push(Token::EndObject),
    {
        struson::writer::JsonWriter::end_object(&mut self.inner).expect(
            "writing to memory cannot fail",
        );
    }

    /// Relies on struson's JsonWriter::name: writes a member name,
    /// escaped as needed.
    #[verifier::external_body]
    pub fn name(&mut self, name: &str)
        requires
            mrun(m_init(), emit_events(old(self))) matches Some(s) && mstep(
                s,
                Token::Name(name@),
            ) is Some,
        ensures
            emit_events(final(self)) == emit_events(old(self)).push(Token::Name(name@)),
    {
        struson::writer::JsonWriter::name(&mut self.inner, name).expect(
            "writing to memory cannot fail",
        );
    }

    /// Relies on struson's JsonWriter::string_value: writes a string
    /// value, escaped as needed.
    #[verifier::external_body]
    pub fn string_value(&mut self, value: &str)
        requires
            mrun(m_init(), emit_events(old(self))) matches Some(s) && mstep(
                s,
                Token::Str(value@),
            ) is Some,
        ensures
            emit_events(final(self)) == emit_events(old(self)).push(Token::Str(value@)),
    {
        struson::writer::JsonWriter::string_value(&mut self.inner, value).expect(
            "writing to memory cannot fail",
        );
    }

    /// Relies on struson's JsonWriter::number_value_from_string: writes
    /// a number from its numeral text, which the machine step guarantees
    /// to be a valid JSON numeral.
    #[verifier::external_body]
    pub fn number_value(&mut self, value: &str)
        requires
            mrun(m_init(), emit_events(old(self))) matches Some(s) && mstep(
                s,
                Token::Num(value@),
            ) is Some,
        ensures
            emit_events(final(self)) == emit_events(old(self)).push(Token::Num(value@)),
    {
        struson::writer::JsonWriter::number_value_from_string(&mut self.inner, value).expect(
            "a checked numeral cannot be rejected",
        );
    }

    /// Relies on struson's JsonWriter::bool_value.
    #[verifier::external_body]
    pub fn bool_value(&mut self, value: bool)
        requires
            mrun(m_init(), emit_events(old(self))) matches Some(s) && mstep(
                s,
                Token::Bool(value),
            ) is Some,
        ensures
            emit_events(final(self)) == emit_events(old(self)).push(Token::Bool(value)),
    {
        struson::writer::JsonWriter::bool_value(&mut self.inner, value).expect(
            "writing to memory cannot fail",
        );
    }

    /// Relies on struson's JsonWriter::null_value.
    #[verifier::external_body]
    pub fn null_value(&mut self)
        requires
            mrun(m_init(), emit_events(old(self))) matches Some(s) && mstep(s, Token::Null) is Some,
        ensures
            emit_events(final(self)) == emit_events(old(self)).push(Token::Null),
    {
        struson::writer::JsonWriter::null_value(&mut self.inner).expect(
            "writing to memory cannot fail",
        );
    }

    /// Relies on struson's JsonWriter::finish_document, and on the
    /// reader and the writer agreeing: tokenizing the written bytes
    /// yields exactly the written events.
    #[verifier::external_body]
    pub fn finish(self) -> (r: Vec<u8>)
        requires
            mrun(m_init(), emit_events(&self)) == Some(m_done()),
        ensures
            tokens_of(r@) == emit_events(&self),
            r@ == emitted_bytes_of(emit_events(&self)),
    {
        struson::writer::JsonWriter::finish_document(self.inner).expect(
            "writing to memory cannot fail",
        )
    }
}

} // verus!
