use vstd::prelude::*;

verus! {

/// One event of the depth-first token stream of a JSON document.
/// Numbers carry their numeral text; `Error` stands where a tokenizer
/// stops on malformed input.
pub enum Token {
    BeginArray,
    EndArray,
    BeginObject,
    EndObject,
    Name(Seq<char>),
    Str(Seq<char>),
    Num(Seq<char>),
    Bool(bool),
    Null,
    Error,
}

/// Whether a string is a JSON numeral that the tokenizer accepts: valid
/// numeral syntax within struson's size restrictions. Every numeral read
/// from a stream satisfies it, and the writer accepts every such numeral.
pub uninterp spec fn is_json_numeral(s: Seq<char>) -> bool;

/// State of the document structure machine: the stack of open containers
/// (`true` for an object), whether a member name was just consumed, and
/// whether the single top-level value is complete.
pub struct MState {
    pub stack: Seq<bool>,
    pub named: bool,
    pub done: bool,
}

pub open spec fn m_init() -> MState {
    MState { stack: Seq::empty(), named: false, done: false }
}

pub open spec fn m_done() -> MState {
    MState { stack: Seq::empty(), named: false, done: true }
}

/// A value may start here: at the top before anything was consumed,
/// inside an array, or inside an object right after a member name.
pub open spec fn can_value(s: MState) -> bool {
    !s.done && (s.stack.len() == 0 || !s.stack.last() || s.named)
}

/// The state after one complete value at the current nesting.
pub open spec fn after_value(s: MState) -> MState {
    MState { stack: s.stack, named: false, done: s.stack.len() == 0 }
}

/// One step of the machine; `None` where the token is illegal.
pub open spec fn mstep(s: MState, t: Token) -> Option<MState> {
    if s.done {
        None
    } else {
        match t {
            Token::Name(_) => if s.stack.len() > 0 && s.stack.last() && !s.named {
                Some(MState { stack: s.stack, named: true, done: false })
            } else {
                None
            },
            Token::Str(_) => if can_value(s) {
                Some(after_value(s))
            } else {
                None
            },
            Token::Bool(_) => if can_value(s) {
                Some(after_value(s))
            } else {
                None
            },
            Token::Null => if can_value(s) {
                Some(after_value(s))
            } else {
                None
            },
            Token::Num(x) => if can_value(s) && is_json_numeral(x) {
                Some(after_value(s))
            } else {
                None
            },
            Token::BeginArray => if can_value(s) {
                Some(MState { stack: s.stack.push(false), named: false, done: false })
            } else {
                None
            },
            Token::BeginObject => if can_value(s) {
                Some(MState { stack: s.stack.push(true), named: false, done: false })
            } else {
                None
            },
            Token::EndArray => if s.stack.len() > 0 && !s.stack.last() && !s.named {
                Some(after_value(MState { stack: s.stack.drop_last(), named: false, done: false }))
            } else {
                None
            },
            Token::EndObject => if s.stack.len() > 0 && s.stack.last() && !s.named {
                Some(after_value(MState { stack: s.stack.drop_last(), named: false, done: false }))
            } else {
                None
            },
            Token::Error => None,
        }
    }
}

/// Runs the machine over a token sequence.
pub open spec fn mrun(s: MState, ts: Seq<Token>) -> Option<MState>
    decreases ts.len(),
{
    if ts.len() == 0 {
        Some(s)
    } else {
        match mstep(s, ts[0]) {
            Some(s2) => mrun(s2, ts.drop_first()),
            None => None,
        }
    }
}

/// The tokens form exactly one complete JSON value.
pub open spec fn complete_value_run(ts: Seq<Token>) -> bool {
    mrun(m_init(), ts) == Some(m_done())
}

/// The tokens form one complete value from every state where a value may
/// start, ending in the corresponding after-value state.
pub open spec fn value_run(ts: Seq<Token>) -> bool {
    forall|s: MState| can_value(s) ==> #[trigger] mrun(s, ts) == Some(after_value(s))
}

pub proof fn lemma_value_run_complete(ts: Seq<Token>)
    requires
        value_run(ts),
    ensures
        complete_value_run(ts),
{
    assert(can_value(m_init()));
    assert(mrun(m_init(), ts) == Some(after_value(m_init())));
    assert(after_value(m_init()) == m_done());
}

/// Running over a concatenation runs over the parts in order.
pub proof fn lemma_mrun_append(s: MState, a: Seq<Token>, b: Seq<Token>)
    ensures
        mrun(s, a + b) == (match mrun(s, a) {
            Some(m) => mrun(m, b),
            None => None,
        }),
    decreases a.len(),
{
    if a.len() == 0 {
        assert(a + b =~= b);
    } else {
        assert((a + b)[0] == a[0]);
        match mstep(s, a[0]) {
            Some(s2) => {
                assert((a + b).drop_first() =~= a.drop_first() + b);
                lemma_mrun_append(s2, a.drop_first(), b);
            },
            None => {},
        }
    }
}

/// A run that succeeds is legal at every prefix: each next step exists.
pub proof fn lemma_mrun_prefix(s: MState, ts: Seq<Token>, k: int)
    requires
        mrun(s, ts) is Some,
        0 <= k <= ts.len(),
    ensures
        mrun(s, ts.take(k)) is Some,
        k < ts.len() ==> mstep(mrun(s, ts.take(k)).unwrap(), ts[k]) is Some,
        k < ts.len() ==> mrun(s, ts.take(k + 1)) == mstep(mrun(s, ts.take(k)).unwrap(), ts[k]),
    decreases k,
{
    if k == 0 {
        assert(ts.take(0) =~= Seq::<Token>::empty());
        if 0 < ts.len() {
            assert(mstep(s, ts[0]) is Some) by {
                if mstep(s, ts[0]) is None {
                    assert(mrun(s, ts) is None);
                }
            }
            assert(ts.take(1) =~= seq![ts[0]]);
            assert(mrun(s, ts.take(1)) == mstep(s, ts[0])) by {
                reveal_with_fuel(mrun, 2);
                let one = ts.take(1);
                assert(one[0] == ts[0]);
                assert(one.drop_first() =~= Seq::<Token>::empty());
            }
        }
    } else {
        let s2 = mstep(s, ts[0]);
        assert(s2 is Some) by {
            if s2 is None {
                assert(mrun(s, ts) is None);
            }
        }
        let rest = ts.drop_first();
        assert(mrun(s2.unwrap(), rest) == mrun(s, ts));
        lemma_mrun_prefix(s2.unwrap(), rest, k - 1);
        assert(ts.take(k).drop_first() =~= rest.take(k - 1));
        assert(ts.take(k)[0] == ts[0]);
        assert(mrun(s, ts.take(k)) == mrun(s2.unwrap(), rest.take(k - 1)));
        if k < ts.len() {
            assert(rest[k - 1] == ts[k]);
            assert(ts.take(k + 1).drop_first() =~= rest.take(k));
            assert(ts.take(k + 1)[0] == ts[0]);
            assert(mrun(s, ts.take(k + 1)) == mrun(s2.unwrap(), rest.take(k)));
        }
    }
}

/// A complete run has no shorter complete prefix and no longer complete
/// extension: once the machine is done, no further token is legal.
pub proof fn lemma_complete_prefix_unique(a: Seq<Token>, n: int)
    requires
        complete_value_run(a),
        0 <= n <= a.len(),
        complete_value_run(a.take(n)),
    ensures
        n == a.len(),
{
    if n < a.len() {
        lemma_mrun_prefix(m_init(), a, n);
        assert(mstep(m_done(), a[n]) is None);
    }
}

/// Two complete runs, one a prefix of the other, are the same run.
pub proof fn lemma_complete_runs_equal(a: Seq<Token>, b: Seq<Token>)
    requires
        complete_value_run(a),
        complete_value_run(b),
        b.len() <= a.len(),
        a.take(b.len() as int) == b,
    ensures
        a == b,
{
    lemma_complete_prefix_unique(a, b.len() as int);
    assert(a.take(a.len() as int) =~= a);
}


/// Inside an array, before or between elements.
pub open spec fn in_array(s: MState) -> bool {
    !s.done && s.stack.len() > 0 && !s.stack.last() && !s.named
}

/// Inside an object, where a member name or the closing brace may come.
pub open spec fn in_object(s: MState) -> bool {
    !s.done && s.stack.len() > 0 && s.stack.last() && !s.named
}

/// A sequence of complete array elements: it leaves any in-array state
/// unchanged.
pub open spec fn items_run(ts: Seq<Token>) -> bool {
    forall|s: MState| in_array(s) ==> #[trigger] mrun(s, ts) == Some(s)
}

/// A sequence of complete object members: it leaves any in-object state
/// unchanged.
pub open spec fn members_run(ts: Seq<Token>) -> bool {
    forall|s: MState| in_object(s) ==> #[trigger] mrun(s, ts) == Some(s)
}

/// One legal leaf token is a complete value.
pub proof fn lemma_singleton_run(t: Token)
    requires
        t is Str || t is Bool || t is Null || (t matches Token::Num(x) && is_json_numeral(x)),
    ensures
        value_run(seq![t]),
{
    assert forall|s: MState| can_value(s) implies #[trigger] mrun(s, seq![t]) == Some(
        after_value(s),
    ) by {
        reveal_with_fuel(mrun, 2);
        assert(seq![t].drop_first() =~= Seq::<Token>::empty());
        assert(seq![t][0] == t);
    }
}

/// A complete value appended to complete array elements gives complete
/// array elements again.
pub proof fn lemma_items_extend(items: Seq<Token>, run: Seq<Token>)
    requires
        items_run(items),
        value_run(run),
    ensures
        items_run(items + run),
{
    assert forall|s: MState| in_array(s) implies #[trigger] mrun(s, items + run) == Some(s) by {
        lemma_mrun_append(s, items, run);
        assert(mrun(s, items) == Some(s));
        assert(can_value(s));
        assert(mrun(s, run) == Some(after_value(s)));
        assert(after_value(s) == s);
    }
}

/// A named complete value appended to complete object members gives
/// complete object members again.
pub proof fn lemma_members_extend(members: Seq<Token>, n: Seq<char>, run: Seq<Token>)
    requires
        members_run(members),
        value_run(run),
    ensures
        members_run(members + (seq![Token::Name(n)] + run)),
{
    assert forall|s: MState| in_object(s) implies #[trigger] mrun(
        s,
        members + (seq![Token::Name(n)] + run),
    ) == Some(s) by {
        lemma_mrun_append(s, members, seq![Token::Name(n)] + run);
        assert(mrun(s, members) == Some(s));
        lemma_mrun_append(s, seq![Token::Name(n)], run);
        let s_named = MState { stack: s.stack, named: true, done: false };
        assert(mrun(s, seq![Token::Name(n)]) == Some(s_named)) by {
            reveal_with_fuel(mrun, 2);
            assert(seq![Token::Name(n)].drop_first() =~= Seq::<Token>::empty());
            assert(seq![Token::Name(n)][0] == Token::Name(n));
            assert(mstep(s, Token::Name(n)) == Some(s_named));
        }
        assert(can_value(s_named));
        assert(mrun(s_named, run) == Some(after_value(s_named)));
        assert(after_value(s_named) == s);
        assert(mrun(s, (seq![Token::Name(n)] + run)) == Some(s));
    }
}

/// Complete array elements between brackets form one complete value.
pub proof fn lemma_array_run(items: Seq<Token>)
    requires
        items_run(items),
    ensures
        value_run(seq![Token::BeginArray] + items + seq![Token::EndArray]),
{
    assert forall|s: MState| can_value(s) implies #[trigger] mrun(
        s,
        seq![Token::BeginArray] + items + seq![Token::EndArray],
    ) == Some(after_value(s)) by {
        let s_in = MState { stack: s.stack.push(false), named: false, done: false };
        lemma_mrun_append(s, seq![Token::BeginArray] + items, seq![Token::EndArray]);
        lemma_mrun_append(s, seq![Token::BeginArray], items);
        assert(mrun(s, seq![Token::BeginArray]) == Some(s_in)) by {
            reveal_with_fuel(mrun, 2);
            assert(seq![Token::BeginArray].drop_first() =~= Seq::<Token>::empty());
            assert(seq![Token::BeginArray][0] == Token::BeginArray);
        }
        assert(in_array(s_in));
        assert(mrun(s_in, items) == Some(s_in));
        assert(mrun(s, seq![Token::BeginArray] + items) == Some(s_in));
        assert(mrun(s_in, seq![Token::EndArray]) == Some(after_value(s))) by {
            reveal_with_fuel(mrun, 2);
            assert(seq![Token::EndArray].drop_first() =~= Seq::<Token>::empty());
            assert(seq![Token::EndArray][0] == Token::EndArray);
            assert(s_in.stack.drop_last() =~= s.stack);
            assert(mstep(s_in, Token::EndArray) == Some(after_value(s)));
        }
    }
}

/// Complete object members between braces form one complete value.
pub proof fn lemma_object_run(members: Seq<Token>)
    requires
        members_run(members),
    ensures
        value_run(seq![Token::BeginObject] + members + seq![Token::EndObject]),
{
    assert forall|s: MState| can_value(s) implies #[trigger] mrun(
        s,
        seq![Token::BeginObject] + members + seq![Token::EndObject],
    ) == Some(after_value(s)) by {
        let s_in = MState { stack: s.stack.push(true), named: false, done: false };
        lemma_mrun_append(s, seq![Token::BeginObject] + members, seq![Token::EndObject]);
        lemma_mrun_append(s, seq![Token::BeginObject], members);
        assert(mrun(s, seq![Token::BeginObject]) == Some(s_in)) by {
            reveal_with_fuel(mrun, 2);
            assert(seq![Token::BeginObject].drop_first() =~= Seq::<Token>::empty());
            assert(seq![Token::BeginObject][0] == Token::BeginObject);
        }
        assert(in_object(s_in));
        assert(mrun(s_in, members) == Some(s_in));
        assert(mrun(s, seq![Token::BeginObject] + members) == Some(s_in));
        assert(mrun(s_in, seq![Token::EndObject]) == Some(after_value(s))) by {
            reveal_with_fuel(mrun, 2);
            assert(seq![Token::EndObject].drop_first() =~= Seq::<Token>::empty());
            assert(seq![Token::EndObject][0] == Token::EndObject);
            assert(s_in.stack.drop_last() =~= s.stack);
            assert(mstep(s_in, Token::EndObject) == Some(after_value(s)));
        }
    }
}

/// A complete value consumes at least one token.
pub proof fn lemma_value_run_nonempty(ts: Seq<Token>)
    requires
        value_run(ts),
    ensures
        ts.len() > 0,
{
    assert(can_value(m_init()));
    assert(mrun(m_init(), ts) == Some(after_value(m_init())));
    if ts.len() == 0 {
        assert(mrun(m_init(), ts) == Some(m_init()));
    }
}

/// The token may begin a value.
pub open spec fn starts_value(t: Token) -> bool {
    t is BeginArray || t is BeginObject || t is Str || t is Num || t is Bool || t is Null
}

/// No tokenizer failure anywhere in the stream.
pub open spec fn error_free(ts: Seq<Token>) -> bool {
    forall|i: int| 0 <= i < ts.len() ==> !((#[trigger] ts[i]) is Error)
}

/// A complete value run never holds an error token: every token steps
/// the machine, and the error token steps nothing.
pub proof fn lemma_complete_error_free(ts: Seq<Token>)
    requires
        complete_value_run(ts),
    ensures
        error_free(ts),
        ts.len() > 0 ==> starts_value(ts[0]),
{
    assert forall|i: int| 0 <= i < ts.len() implies !((#[trigger] ts[i]) is Error) by {
        lemma_mrun_prefix(m_init(), ts, i);
    }
    if ts.len() > 0 {
        lemma_mrun_prefix(m_init(), ts, 0);
        assert(ts.take(0) =~= Seq::<Token>::empty());
        assert(mstep(m_init(), ts[0]) is Some);
    }
}
} // verus!
