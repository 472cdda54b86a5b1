//! Encoded transactions as the worker sends them, and values shared by id.
use vstd::prelude::*;
use vstd::string::StringSliceAdditionalSpecFns;
use std::sync::Arc;

verus! {

/// The outcome of one command or query in a transaction: the value it
/// returned, or the message of its error. A failed call is answered here and
/// the transaction goes on.
#[derive(Clone, Debug, PartialEq, Eq)]
pub struct CallResult<V> {
    pub request: u64,
    pub value: Option<V>,
    pub error: Option<String>,
}

impl<V> CallResult<V> {
    /// The answer to request `request`.
    pub fn new(request: u64, result: Result<V, String>) -> (r: Self)
        ensures
            r.request == request,
            match result {
                Ok(v) => r.value == Some(v) && r.error is None,
                Err(e) => r.value is None && r.error == Some(e),
            },
    {
        match result {
            Ok(value) => CallResult { request, value: Some(value), error: None },
            Err(error) => CallResult { request, value: None, error: Some(error) },
        }
    }
}

/// What the worker hears back after a transaction: the subscriptions it
/// retired and the answer to each command or query, in order.
#[derive(Clone, Debug, PartialEq, Eq)]
pub struct Reply<V> {
    pub sequence: u64,
    pub retired: Vec<u64>,
    pub results: Vec<CallResult<V>>,
}

/// An encoded transaction: committed changes as text, decoded against the
/// component registry.
#[derive(Debug)]
pub struct Transaction {
    text: String,
}

impl Transaction {
    /// The encoded text.
    pub closed spec fn encoded(&self) -> Seq<char> {
        self.text@
    }

    /// Wraps encoded text as it came from the worker.
    pub fn from_encoded(json: String) -> (r: Transaction)
        ensures
            r.encoded() == json@,
    {
        Transaction { text: json }
    }

    /// The encoded text.
    pub fn as_str(&self) -> (r: &str)
        ensures
            r@ == self.encoded(),
    {
        self.text.as_str()
    }

    /// The length of the encoded text in bytes.
    pub fn len(&self) -> (n: usize)
        ensures
            n == crate::text::utf8_of(self.encoded()).len(),
    {
        self.text.as_str().as_bytes().len()
    }

    /// Whether the encoded text is empty.
    pub fn is_empty(&self) -> (b: bool)
        ensures
            b == (self.encoded().len() == 0),
    {
        proof {
            if self.text@.len() > 0 {
                vstd::utf8::encode_utf8_first_scalar(self.text@);
            }
        }
        self.text.as_str().as_bytes().len() == 0
    }
}

/// The definition type a session shares by id.
pub trait SharedDefinition: Sized {
    /// The value a shared prop holds when the wire omits it: one cached
    /// definition, so defaulted props allocate nothing.
    fn default_shared() -> Arc<Self>;
}

/// A value shared between every node that declared it.
#[derive(Debug)]
pub struct Shared<T>(Arc<T>);

impl<T> Shared<T> {
    /// The shared value.
    pub closed spec fn value(&self) -> T {
        *self.0
    }

    /// Shares a value allocated on its own.
    pub fn new(value: T) -> (r: Shared<T>)
        ensures
            r.value() == value,
    {
        Shared(Arc::new(value))
    }

    /// The shared allocation.
    pub fn as_arc(&self) -> (r: &Arc<T>)
        ensures
            **r == self.value(),
    {
        &self.0
    }
}

impl<T> Clone for Shared<T> {
    /// Another handle on the same shared value.
    fn clone(&self) -> (r: Self)
        ensures
            r.value() == self.value(),
    {
        Shared(self.0.clone())
    }
}

impl<T: SharedDefinition> Default for Shared<T> {
    /// The definition's one cached default value.
    fn default() -> Self {
        Shared(T::default_shared())
    }
}

} // verus!
