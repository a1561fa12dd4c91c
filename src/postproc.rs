//! Post-processing: a conversion function per token type that turns a token
//! into a value of the client's own type, or into a typed error.
use crate::tokenizer::{Token, TokenTypeId};
use std::collections::HashMap;
use std::marker::PhantomData;
use vstd::prelude::*;

verus! {

broadcast use vstd::std_specs::hash::group_hash_axioms;

/// A conversion failure, with the type of the token it happened on.
#[derive(Debug, PartialEq)]
pub struct PostprocErr {
    error: String,
    on_type: TokenTypeId,
}

impl PostprocErr {
    /// What went wrong.
    pub closed spec fn message(&self) -> Seq<char> {
        self.error@
    }

    /// The type of the token the failure happened on.
    pub closed spec fn token_type(&self) -> TokenTypeId {
        self.on_type
    }

    pub fn new(token_type: TokenTypeId, error: String) -> (e: PostprocErr)
        ensures
            e.token_type() == token_type,
            e.message() == error@,
    {
        PostprocErr { on_type: token_type, error }
    }

    /// The failure as the `Err` of a conversion result.
    pub fn make<T>(token_type: TokenTypeId, error: String) -> (r: Result<T, PostprocErr>)
        ensures
            r matches Err(e) && e.token_type() == token_type && e.message() == error@,
    {
        Err(PostprocErr::new(token_type, error))
    }

    pub fn on_type(&self) -> (t: TokenTypeId)
        ensures
            t == self.token_type(),
    {
        self.on_type
    }

    pub fn error(&self) -> (s: &str)
        ensures
            s@ == self.message(),
    {
        self.error.as_str()
    }
}

/// Turns a token into a value of type `T`, or fails with a `PostprocErr`.
pub trait PostProcessor<T> {
    /// Whether the conversion that `run_on` picks for `t` may be called on it.
    spec fn can_run_on(&self, t: Token) -> bool;

    fn run_on(&self, t: Token) -> Result<T, PostprocErr>
        requires
            self.can_run_on(t),
    ;
}

/// A table of conversion functions keyed by token type. A later
/// registration for a type replaces the earlier one.
#[verifier::reject_recursive_types(T)]
pub struct BasicPostProcessor<T, F: Fn(Token) -> T> {
    postprocfns: HashMap<TokenTypeId, F>,
    produces: PhantomData<T>,
}

/// Every function in `fns` accepts every token.
pub open spec fn all_callable<T, F: Fn(Token) -> T>(fns: Map<TokenTypeId, F>) -> bool {
    forall|k: TokenTypeId, t: Token|
        fns.contains_key(k) ==> #[trigger] call_requires(fns[k], (t,))
}

impl<T, F: Fn(Token) -> T> BasicPostProcessor<T, F> {
    /// The conversion function registered for each token type.
    pub closed spec fn conversions(&self) -> Map<TokenTypeId, F> {
        self.postprocfns@
    }

    pub fn new() -> (p: BasicPostProcessor<T, F>)
        ensures
            p.conversions() == Map::<TokenTypeId, F>::empty(),
    {
        assert(all_callable(Map::<TokenTypeId, F>::empty()));
        BasicPostProcessor { postprocfns: HashMap::new(), produces: PhantomData }
    }

    /// Registers `postprocfn` for tokens of type `for_id`, replacing any
    /// function registered for that type before.
    pub fn add_postprocfn_boxed(&mut self, for_id: TokenTypeId, postprocfn: F)
        requires
            forall|t: Token| call_requires(postprocfn, (t,)),
            all_callable(old(self).conversions()),
        ensures
            final(self).conversions() == old(self).conversions().insert(for_id, postprocfn),
            all_callable(final(self).conversions()),
    {
        self.postprocfns.insert(for_id, postprocfn);
    }

    /// Registers `postprocfn` for tokens of type `for_id`, replacing any
    /// function registered for that type before.
    pub fn add_postprocfn(&mut self, for_id: TokenTypeId, postprocfn: F)
        requires
            forall|t: Token| call_requires(postprocfn, (t,)),
            all_callable(old(self).conversions()),
        ensures
            final(self).conversions() == old(self).conversions().insert(for_id, postprocfn),
            all_callable(final(self).conversions()),
    {
        self.add_postprocfn_boxed(for_id, postprocfn);
    }
}

impl<T, F: Fn(Token) -> T> PostProcessor<T> for BasicPostProcessor<T, F> {
    open spec fn can_run_on(&self, t: Token) -> bool {
        self.conversions().contains_key(t.typ) ==> call_requires(
            self.conversions()[t.typ],
            (t,),
        )
    }

    /// Applies the function registered for the token's type and wraps what
    /// it returns in `Ok`; fails, naming the type, where none is registered.
    fn run_on(&self, t: Token) -> (r: Result<T, PostprocErr>)
        ensures
            self.conversions().contains_key(t.typ) ==> (r matches Ok(v) && call_ensures(
                self.conversions()[t.typ],
                (t,),
                v,
            )),
            !self.conversions().contains_key(t.typ) ==> (r matches Err(e) && e.token_type()
                == t.typ && e.message() == "Failed to find prostprocessor for token type"@),
    {
        match self.postprocfns.get(&t.typ) {
            Some(postprocfn) => Ok(postprocfn(t)),
            None => Err(
                PostprocErr::new(t.typ, "Failed to find prostprocessor for token type".to_owned()),
            ),
        }
    }
}

impl<T, F: Fn(Token) -> Result<T, PostprocErr>> PostProcessor<T> for BasicPostProcessor<
    Result<T, PostprocErr>,
    F,
> {
    open spec fn can_run_on(&self, t: Token) -> bool {
        self.conversions().contains_key(t.typ) ==> call_requires(
            self.conversions()[t.typ],
            (t,),
        )
    }

    /// Applies the function registered for the token's type and returns its
    /// result as it is; fails, naming the type, where none is registered.
    fn run_on(&self, t: Token) -> (r: Result<T, PostprocErr>)
        ensures
            self.conversions().contains_key(t.typ) ==> call_ensures(
                self.conversions()[t.typ],
                (t,),
                r,
            ),
            !self.conversions().contains_key(t.typ) ==> (r matches Err(e) && e.token_type()
                == t.typ && e.message() == "Failed to find prostprocessor for token type"@),
    {
        match self.postprocfns.get(&t.typ) {
            Some(postprocfn) => postprocfn(t),
            None => Err(
                PostprocErr::new(t.typ, "Failed to find prostprocessor for token type".to_owned()),
            ),
        }
    }
}

} // verus!
